//! What the crawler does with a fetched page: which links it queues, which
//! host-level links it counts, which images and which text it stores.

use vstd::prelude::*;
use vstd::string::StrSliceExecFns;
use crate::address::{WebUrl, UrlView, parsed_url, joined_url, url_parse, url_join};
use crate::text::{remove_all, chars_of, remove_pattern, string_from_chars};
use crate::linkset::{link_set, link_set_of, hrefs, href_lt, ascending, lemma_link_set_properties};
use crate::html::{HTML_MAX_BYTES, attr_values_of, element_texts_of, html_read};
use crate::text::{join_blocks, text_for_index, page_text, cut_on_boundary, stored_text};
use vstd::utf8::valid_utf8;

verus! {

/// The characters `http`.
pub open spec fn http_chars() -> Seq<char> {
    seq!['h', 't', 't', 'p']
}

/// Whether a reference on a page is taken as an absolute URL: it starts with
/// `http`.
pub open spec fn is_absolute_ref(reference: Seq<char>) -> bool {
    reference.len() >= 4 && reference.take(4) == http_chars()
}

/// The URL that a reference on the page with URL `page` leads to: an
/// absolute reference is parsed on its own, any other is joined to the page's
/// URL.
pub open spec fn resolve(page: Seq<char>, reference: Seq<char>) -> Option<UrlView> {
    if is_absolute_ref(reference) {
        parsed_url(reference)
    } else {
        joined_url(page, reference)
    }
}

/// Whether a link's query can be stripped: it has none, or its serialization
/// with every occurrence of the query text removed parses again.
pub open spec fn can_strip_query(u: UrlView) -> bool {
    u.query matches Some(q) ==> parsed_url(remove_all(u.href, q)) is Some
}

/// A link without its query: where it has a query, the URL parsed from its
/// serialization with every occurrence of the query text removed.
pub open spec fn without_query(u: UrlView) -> UrlView {
    match u.query {
        Some(q) => parsed_url(remove_all(u.href, q))->0,
        None => u,
    }
}

/// Whether a reference on a page is taken as an absolute URL.
pub fn refers_absolutely(reference: &str) -> (r: bool)
    ensures
        r == is_absolute_ref(reference@),
{
    let n = reference.unicode_len();
    if n < 4 {
        return false;
    }
    let r = reference.get_char(0) == 'h' && reference.get_char(1) == 't' && reference.get_char(2)
        == 't' && reference.get_char(3) == 'p';
    proof {
        if r {
            assert(reference@.take(4) =~= http_chars());
        } else {
            assert(reference@.take(4)[0] == reference@[0]);
            assert(reference@.take(4)[1] == reference@[1]);
            assert(reference@.take(4)[2] == reference@[2]);
            assert(reference@.take(4)[3] == reference@[3]);
        }
    }
    r
}

/// The URL that a reference on the page `page` leads to.
pub fn resolve_reference(page: &WebUrl, reference: &str) -> (r: Option<WebUrl>)
    ensures
        r.deep_view() == resolve(page@.href, reference@),
{
    if refers_absolutely(reference) {
        url_parse(reference)
    } else {
        url_join(page.href.as_str(), reference)
    }
}

/// Strips the query of a link; `None` where the stripped serialization does
/// not parse.
fn strip_query(u: WebUrl) -> (r: Option<WebUrl>)
    ensures
        r is Some <==> can_strip_query(u@),
        r matches Some(v) ==> v@ == without_query(u@),
{
    match &u.query {
        Some(q) => {
            let href = chars_of(u.href.as_str());
            let query = chars_of(q.as_str());
            let stripped = string_from_chars(&remove_pattern(&href, &query));
            url_parse(stripped.as_str())
        },
        None => Some(u),
    }
}


/// The URLs that the `href`s of the anchors of the page `page` lead to, in
/// order; anchors without `href` and references that do not resolve are
/// left out.
pub open spec fn resolved_links(page: Seq<char>, anchors: Seq<Option<Seq<char>>>) -> Seq<UrlView>
    decreases anchors.len(),
{
    if anchors.len() == 0 {
        Seq::empty()
    } else {
        let init = resolved_links(page, anchors.drop_last());
        match anchors.last() {
            Some(reference) => match resolve(page, reference) {
                Some(u) => init.push(u),
                None => init,
            },
            None => init,
        }
    }
}

/// The links resolved from a prefix of the anchors are a prefix of those
/// resolved from all of them.
proof fn lemma_resolved_links_prefix(page: Seq<char>, anchors: Seq<Option<Seq<char>>>, k: int)
    requires
        0 <= k <= anchors.len(),
    ensures
        resolved_links(page, anchors.take(k)).len() <= resolved_links(page, anchors).len(),
        forall|j: int|
            0 <= j < resolved_links(page, anchors.take(k)).len() ==> #[trigger] resolved_links(
                page,
                anchors.take(k),
            )[j] == resolved_links(page, anchors)[j],
    decreases anchors.len(),
{
    if k == anchors.len() {
        assert(anchors.take(k) =~= anchors);
    } else {
        let init = anchors.drop_last();
        assert(init.take(k) =~= anchors.take(k));
        lemma_resolved_links_prefix(page, init, k);
    }
}

/// Whether the query of every link of the page can be stripped.
pub open spec fn links_strippable(page: Seq<char>, anchors: Seq<Option<Seq<char>>>) -> bool {
    forall|i: int|
        0 <= i < resolved_links(page, anchors).len() ==> can_strip_query(
            #[trigger] resolved_links(page, anchors)[i],
        )
}

/// The links found on the page, without their queries, in anchor order.
pub open spec fn found_links(page: Seq<char>, anchors: Seq<Option<Seq<char>>>) -> Seq<UrlView> {
    resolved_links(page, anchors).map_values(|u: UrlView| without_query(u))
}

/// The links found on a page, without their queries; `None` where a query
/// cannot be stripped.
fn found_links_of(page: &WebUrl, anchors: &Vec<Option<String>>) -> (r: Option<Vec<WebUrl>>)
    ensures
        r is Some <==> links_strippable(page@.href, anchors.deep_view()),
        r matches Some(v) ==> v.deep_view() == found_links(page@.href, anchors.deep_view()),
{
    let ghost a = anchors.deep_view();
    let mut out: Vec<WebUrl> = Vec::new();
    let n = anchors.len();
    for i in 0..n
        invariant
            n == anchors@.len(),
            a == anchors.deep_view(),
            links_strippable(page@.href, a.take(i as int)),
            out.deep_view() == found_links(page@.href, a.take(i as int)),
    {
        let ghost prefix = a.take(i + 1);
        proof {
            assert(prefix.drop_last() =~= a.take(i as int));
            assert(prefix.last() == a[i as int]);
        }
        match &anchors[i] {
            Some(reference) => {
                assert(a[i as int] == Some(reference@));
                match resolve_reference(page, reference.as_str()) {
                    Some(u) => {
                        let ghost uv = u@;
                        match strip_query(u) {
                            Some(v) => {
                                let ghost before = out.deep_view();
                                out.push(v);
                                proof {
                                    assert(resolved_links(page@.href, prefix) == resolved_links(
                                        page@.href,
                                        a.take(i as int),
                                    ).push(uv));
                                    assert(out.deep_view() =~= before.push(v@));
                                    assert(found_links(page@.href, prefix) =~= found_links(
                                        page@.href,
                                        a.take(i as int),
                                    ).push(without_query(uv)));
                                    assert forall|j: int|
                                        0 <= j < resolved_links(page@.href, prefix).len()
                                            implies can_strip_query(
                                        #[trigger] resolved_links(page@.href, prefix)[j],
                                    ) by {
                                        if j < resolved_links(page@.href, prefix).len() - 1 {
                                            assert(resolved_links(page@.href, prefix)[j]
                                                == resolved_links(page@.href, a.take(i as int))[j]);
                                        }
                                    }
                                }
                            },
                            None => {
                                proof {
                                    let rl = resolved_links(page@.href, prefix);
                                    assert(rl == resolved_links(page@.href, a.take(i as int)).push(uv));
                                    assert(rl[rl.len() - 1] == uv);
                                    lemma_resolved_links_prefix(page@.href, a, i + 1);
                                    assert(resolved_links(page@.href, a)[rl.len() - 1] == uv);
                                }
                                return None;
                            },
                        }
                    },
                    None => {
                        assert(resolved_links(page@.href, prefix) == resolved_links(
                            page@.href,
                            a.take(i as int),
                        ));
                    },
                }
            },
            None => {
                assert(a[i as int] == None::<Seq<char>>);
                assert(resolved_links(page@.href, prefix) == resolved_links(
                    page@.href,
                    a.take(i as int),
                ));
            },
        }
    }
    assert(a.take(n as int) =~= a);
    Some(out)
}


/// The host put in place of a missing one when a link's home URL is built.
pub open spec fn placeholder_host() -> Seq<char> {
    seq!['e', 'x', 'a', 'm', 'p', 'l', 'e', '.', 'c', 'o', 'm']
}

/// The home URL text of a scheme and a host: `scheme://host/`.
pub open spec fn home_href(scheme: Seq<char>, host: Seq<char>) -> Seq<char> {
    scheme + seq![':', '/', '/'] + host + seq!['/']
}

/// The home URL text of a link: its scheme and its host, or the placeholder
/// host where it has none.
pub open spec fn link_home_href(u: UrlView) -> Seq<char> {
    home_href(
        u.scheme,
        match u.host {
            Some(h) => h,
            None => placeholder_host(),
        },
    )
}

/// Whether the home URL text of each link parses.
pub open spec fn homes_parse(links: Seq<UrlView>) -> bool {
    forall|i: int| 0 <= i < links.len() ==> (#[trigger] parsed_url(link_home_href(links[i]))) is Some
}

/// The home URL of each link.
pub open spec fn link_homes(links: Seq<UrlView>) -> Seq<UrlView> {
    links.map_values(|u: UrlView| parsed_url(link_home_href(u))->0)
}

/// Whether every URL has a host.
pub open spec fn hosts_present(urls: Seq<UrlView>) -> bool {
    forall|i: int| 0 <= i < urls.len() ==> (#[trigger] urls[i]).host is Some
}

/// Whether a home URL is counted as a link from the page whose host is
/// `page_host`: its host is neither the page's host nor the placeholder host.
pub open spec fn counts_as_host_link(page_host: Seq<char>, home: UrlView) -> bool {
    home.host->0 != page_host && home.host->0 != placeholder_host()
}

/// The serializations of the home URLs that count as links from the page
/// whose host is `page_host`, in order.
pub open spec fn counted_host_links(page_host: Seq<char>, homes: Seq<UrlView>) -> Seq<Seq<char>>
    decreases homes.len(),
{
    if homes.len() == 0 {
        Seq::empty()
    } else {
        let init = counted_host_links(page_host, homes.drop_last());
        if counts_as_host_link(page_host, homes.last()) {
            init.push(homes.last().href)
        } else {
            init
        }
    }
}

/// Builds `scheme://host/`.
pub fn home_href_of(scheme: &str, host: &str) -> (r: String)
    ensures
        r@ == home_href(scheme@, host@),
{
    let mut cs = chars_of(scheme);
    cs.push(':');
    cs.push('/');
    cs.push('/');
    let mut hs = chars_of(host);
    cs.append(&mut hs);
    cs.push('/');
    assert(cs@ =~= home_href(scheme@, host@));
    string_from_chars(&cs)
}

/// The home URL of each link; `None` where one does not parse.
fn homes_of(links: &Vec<WebUrl>) -> (r: Option<Vec<WebUrl>>)
    ensures
        r is Some <==> homes_parse(links.deep_view()),
        r matches Some(v) ==> v.deep_view() == link_homes(links.deep_view()),
{
    let ghost s = links.deep_view();
    let mut out: Vec<WebUrl> = Vec::new();
    let n = links.len();
    for i in 0..n
        invariant
            n == links@.len(),
            s == links.deep_view(),
            homes_parse(s.take(i as int)),
            out.deep_view() == link_homes(s.take(i as int)),
    {
        let u = &links[i];
        assert(s[i as int] == u@);
        let home = match &u.host {
            Some(h) => {
                assert(u@.host == Some(h@));
                home_href_of(u.scheme.as_str(), h.as_str())
            },
            None => {
                let placeholder = "example.com";
                proof {
                    reveal_strlit("example.com");
                }
                assert(placeholder@ =~= placeholder_host());
                home_href_of(u.scheme.as_str(), placeholder)
            },
        };
        assert(home@ == link_home_href(u@));
        match url_parse(home.as_str()) {
            Some(h) => {
                let ghost before = out.deep_view();
                let ghost hv = h@;
                out.push(h);
                proof {
                    assert(parsed_url(home@) == Some(hv));
                    assert(out.deep_view() =~= before.push(hv));
                    assert(s.take(i + 1) =~= s.take(i as int).push(u@));
                    assert(link_homes(s.take(i + 1)) =~= link_homes(s.take(i as int)).push(hv));
                    assert(out.deep_view() =~= link_homes(s.take(i + 1)));
                    assert forall|j: int| 0 <= j < s.take(i + 1).len() implies (#[trigger] parsed_url(
                        link_home_href(s.take(i + 1)[j]),
                    )) is Some by {
                        if j < i {
                            assert(s.take(i + 1)[j] == s.take(i as int)[j]);
                        }
                    }
                }
            },
            None => {
                assert(parsed_url(link_home_href(s[i as int])) is None);
                return None;
            },
        }
    }
    assert(s.take(n as int) =~= s);
    Some(out)
}

/// The serializations of the home URLs that count as links from the page
/// whose host is `page_host`; `None` where a home URL has no host.
fn host_links_of(page_host: &String, homes: &Vec<WebUrl>) -> (r: Option<Vec<String>>)
    ensures
        r is Some <==> hosts_present(homes.deep_view()),
        r matches Some(v) ==> v.deep_view() == counted_host_links(page_host@, homes.deep_view()),
{
    let ghost s = homes.deep_view();
    let placeholder = "example.com".to_owned();
    proof {
        reveal_strlit("example.com");
        assert(placeholder@ =~= placeholder_host());
    }
    let mut out: Vec<String> = Vec::new();
    let n = homes.len();
    for i in 0..n
        invariant
            n == homes@.len(),
            s == homes.deep_view(),
            placeholder@ == placeholder_host(),
            hosts_present(s.take(i as int)),
            out.deep_view() == counted_host_links(page_host@, s.take(i as int)),
    {
        let b = &homes[i];
        assert(s[i as int] == b@);
        let ghost prefix = s.take(i + 1);
        assert(prefix.drop_last() =~= s.take(i as int));
        assert(prefix.last() == b@);
        match &b.host {
            Some(h) => {
                let ghost before = out.deep_view();
                if *h != *page_host && *h != placeholder {
                    out.push(b.href.clone());
                    assert(out.deep_view() =~= before.push(b@.href));
                }
                assert(hosts_present(prefix)) by {
                    assert forall|j: int| 0 <= j < prefix.len() implies (#[trigger] prefix[j]).host is Some by {
                        if j < i {
                            assert(prefix[j] == s.take(i as int)[j]);
                        }
                    }
                }
            },
            None => {
                return None;
            },
        }
    }
    assert(s.take(n as int) =~= s);
    Some(out)
}


/// An `img` element: its `src` and `alt` attributes.
pub struct ImageTag {
    pub src: Option<String>,
    pub alt: Option<String>,
}

impl DeepView for ImageTag {
    type V = (Option<Seq<char>>, Option<Seq<char>>);

    open spec fn deep_view(&self) -> (Option<Seq<char>>, Option<Seq<char>>) {
        (self.src.deep_view(), self.alt.deep_view())
    }
}

/// An image to record: the URL that its `src` leads to and its `alt` text
/// (empty where it has none).
pub struct ImageRecord {
    pub url: String,
    pub alt: String,
}

impl DeepView for ImageRecord {
    type V = (Seq<char>, Seq<char>);

    open spec fn deep_view(&self) -> (Seq<char>, Seq<char>) {
        (self.url@, self.alt@)
    }
}

/// The images of the page with URL `page` to record, in document order: each
/// `img` with a `src` that resolves, with its `alt` text or an empty one.
pub open spec fn image_rows(
    page: Seq<char>,
    tags: Seq<(Option<Seq<char>>, Option<Seq<char>>)>,
) -> Seq<(Seq<char>, Seq<char>)>
    decreases tags.len(),
{
    if tags.len() == 0 {
        Seq::empty()
    } else {
        let init = image_rows(page, tags.drop_last());
        match tags.last().0 {
            Some(src) => match resolve(page, src) {
                Some(u) => init.push(
                    (
                        u.href,
                        match tags.last().1 {
                            Some(alt) => alt,
                            None => Seq::empty(),
                        },
                    ),
                ),
                None => init,
            },
            None => init,
        }
    }
}

/// Each tag is recorded on its own: the images of a sequence of tags followed
/// by one more tag are those of the sequence followed by those of that tag.
pub proof fn lemma_image_rows_append(
    page: Seq<char>,
    tags: Seq<(Option<Seq<char>>, Option<Seq<char>>)>,
    tag: (Option<Seq<char>>, Option<Seq<char>>),
)
    ensures
        image_rows(page, tags.push(tag)) == image_rows(page, tags) + image_rows(page, seq![tag]),
{
    let one = seq![tag];
    assert(tags.push(tag).drop_last() =~= tags);
    assert(one.drop_last() =~= Seq::<(Option<Seq<char>>, Option<Seq<char>>)>::empty());
    assert(image_rows(page, Seq::<(Option<Seq<char>>, Option<Seq<char>>)>::empty()) =~= Seq::<
        (Seq<char>, Seq<char>),
    >::empty());
    assert(image_rows(page, tags) + Seq::<(Seq<char>, Seq<char>)>::empty() =~= image_rows(page, tags));
    match tag.0 {
        Some(src) => match resolve(page, src) {
            Some(u) => {
                let row = (
                    u.href,
                    match tag.1 {
                        Some(alt) => alt,
                        None => Seq::empty(),
                    },
                );
                assert(image_rows(page, one) =~= seq![row]);
                assert(image_rows(page, tags).push(row) =~= image_rows(page, tags) + seq![row]);
            },
            None => {},
        },
        None => {},
    }
}

/// What one tag records: nothing without a `src`; otherwise the URL that its
/// `src` leads to from the page (a `src` starting with `http` parsed on its
/// own, any other joined to the page's own URL), with its `alt` text or an
/// empty one, and nothing where that fails.
pub proof fn lemma_image_row_of_tag(
    page: Seq<char>,
    src: Option<Seq<char>>,
    alt: Option<Seq<char>>,
)
    ensures
        src is None ==> image_rows(page, seq![(src, alt)]).len() == 0,
        src matches Some(s) ==> image_rows(page, seq![(src, alt)]) == match (if s.len() >= 4 && s.take(
            4,
        ) == seq!['h', 't', 't', 'p'] {
            parsed_url(s)
        } else {
            joined_url(page, s)
        }) {
            Some(u) => seq![
                (
                    u.href,
                    match alt {
                        Some(a) => a,
                        None => Seq::<char>::empty(),
                    },
                ),
            ],
            None => Seq::<(Seq<char>, Seq<char>)>::empty(),
        },
{
    let one = seq![(src, alt)];
    assert(one.drop_last() =~= Seq::<(Option<Seq<char>>, Option<Seq<char>>)>::empty());
    assert(image_rows(page, one.drop_last()) =~= Seq::<(Seq<char>, Seq<char>)>::empty());
    match src {
        Some(s) => {
            match resolve(page, s) {
                Some(u) => {
                    assert(Seq::<(Seq<char>, Seq<char>)>::empty().push(
                        (
                            u.href,
                            match alt {
                                Some(a) => a,
                                None => Seq::<char>::empty(),
                            },
                        ),
                    ) =~= seq![
                        (
                            u.href,
                            match alt {
                                Some(a) => a,
                                None => Seq::<char>::empty(),
                            },
                        ),
                    ]);
                },
                None => {},
            }
        },
        None => {},
    }
}

/// The images of a page to record.
pub fn image_records(page: &WebUrl, tags: &Vec<ImageTag>) -> (r: Vec<ImageRecord>)
    ensures
        r.deep_view() == image_rows(page@.href, tags.deep_view()),
{
    let ghost s = tags.deep_view();
    let mut out: Vec<ImageRecord> = Vec::new();
    let n = tags.len();
    for i in 0..n
        invariant
            n == tags@.len(),
            s == tags.deep_view(),
            out.deep_view() == image_rows(page@.href, s.take(i as int)),
    {
        let tag = &tags[i];
        let ghost prefix = s.take(i + 1);
        assert(prefix.drop_last() =~= s.take(i as int));
        assert(prefix.last() == tag.deep_view());
        if let Some(src) = &tag.src {
            if let Some(u) = resolve_reference(page, src.as_str()) {
                let alt = match &tag.alt {
                    Some(a) => a.clone(),
                    None => String::new(),
                };
                let ghost before = out.deep_view();
                out.push(ImageRecord { url: u.href, alt });
                assert(out.deep_view() =~= image_rows(page@.href, prefix));
            }
        }
    }
    assert(s.take(n as int) =~= s);
    out
}

/// What the crawler reads out of a page's HTML.
pub struct PageContent {
    /// The `href` of each `a` element.
    pub anchors: Vec<Option<String>>,
    /// The text of each `p`, `h1` to `h5` and `title` element.
    pub text_blocks: Vec<String>,
    /// The `img` elements, where images are recorded.
    pub images: Vec<ImageTag>,
}

/// The mathematical value of a [`PageContent`].
pub struct PageContentView {
    pub anchors: Seq<Option<Seq<char>>>,
    pub text_blocks: Seq<Seq<char>>,
    pub images: Seq<(Option<Seq<char>>, Option<Seq<char>>)>,
}

impl DeepView for PageContent {
    type V = PageContentView;

    open spec fn deep_view(&self) -> PageContentView {
        PageContentView {
            anchors: self.anchors.deep_view(),
            text_blocks: self.text_blocks.deep_view(),
            images: self.images.deep_view(),
        }
    }
}

/// Why a page could not be scraped.
#[derive(Debug)]
pub enum ScrapeError {
    /// The page's URL has no host.
    MissingHost,
    /// The home URL built from the page's scheme and host does not parse.
    BadHomeUrl,
    /// The page's body is not valid UTF-8.
    NotUtf8,
    /// The stored text would be cut inside a character.
    TextCut,
}

/// The element whose links are followed: `a`.
pub open spec fn anchor_element() -> Seq<char> {
    seq!['a']
}

/// The attribute of a link element that is followed: `href`.
pub open spec fn link_attrs() -> Seq<Seq<char>> {
    seq![seq!['h', 'r', 'e', 'f']]
}

/// The elements whose text is stored: `p`, `h1` to `h5`, and `title`.
pub open spec fn text_elements() -> Seq<Seq<char>> {
    seq![
        seq!['p'],
        seq!['h', '1'],
        seq!['h', '2'],
        seq!['h', '3'],
        seq!['h', '4'],
        seq!['h', '5'],
        seq!['t', 'i', 't', 'l', 'e'],
    ]
}

/// The element that is recorded as an image: `img`.
pub open spec fn image_element() -> Seq<char> {
    seq!['i', 'm', 'g']
}

/// The attributes of an image that are read: `src` and `alt`.
pub open spec fn image_attrs() -> Seq<Seq<char>> {
    seq![seq!['s', 'r', 'c'], seq!['a', 'l', 't']]
}

/// The content of a page with body `body`, as read by the HTML parser: the
/// `href` of each `a`, the text of each `p`, `h1` to `h5` and `title`, and,
/// where images are recorded, the `src` and `alt` of each `img`.
pub open spec fn page_content(body: Seq<u8>, with_images: bool) -> PageContentView {
    PageContentView {
        anchors: attr_values_of(body, anchor_element(), link_attrs()).map_values(
            |row: Seq<Option<Seq<char>>>| row[0],
        ),
        text_blocks: element_texts_of(body, text_elements()),
        images: if with_images {
            attr_values_of(body, image_element(), image_attrs()).map_values(
                |row: Seq<Option<Seq<char>>>| (row[0], row[1]),
            )
        } else {
            Seq::empty()
        },
    }
}

fn word(chars: Vec<char>) -> (r: String)
    ensures
        r@ == chars@,
{
    string_from_chars(&chars)
}

fn copy_option(o: &Option<String>) -> (r: Option<String>)
    ensures
        r.deep_view() == o.deep_view(),
{
    match o {
        Some(s) => Some(s.clone()),
        None => None,
    }
}

/// The element names of [`text_elements`].
fn text_element_names() -> (r: Vec<String>)
    ensures
        r.deep_view() == text_elements(),
{
    let w0 = word(vec!['p']);
    let w1 = word(vec!['h', '1']);
    let w2 = word(vec!['h', '2']);
    let w3 = word(vec!['h', '3']);
    let w4 = word(vec!['h', '4']);
    let w5 = word(vec!['h', '5']);
    let w6 = word(vec!['t', 'i', 't', 'l', 'e']);
    assert(w0@ =~= seq!['p']);
    assert(w1@ =~= seq!['h', '1']);
    assert(w2@ =~= seq!['h', '2']);
    assert(w3@ =~= seq!['h', '3']);
    assert(w4@ =~= seq!['h', '4']);
    assert(w5@ =~= seq!['h', '5']);
    assert(w6@ =~= seq!['t', 'i', 't', 'l', 'e']);
    let mut v: Vec<String> = Vec::new();
    v.push(w0);
    v.push(w1);
    v.push(w2);
    v.push(w3);
    v.push(w4);
    v.push(w5);
    v.push(w6);
    assert(v.deep_view() =~= text_elements());
    v
}

/// The first value of each row.
fn first_values(rows: &Vec<Vec<Option<String>>>) -> (r: Vec<Option<String>>)
    requires
        forall|i: int| 0 <= i < rows@.len() ==> (#[trigger] rows@[i])@.len() >= 1,
    ensures
        r.deep_view() == rows.deep_view().map_values(|row: Seq<Option<Seq<char>>>| row[0]),
{
    let mut out: Vec<Option<String>> = Vec::new();
    let n = rows.len();
    for i in 0..n
        invariant
            n == rows@.len(),
            forall|i: int| 0 <= i < rows@.len() ==> (#[trigger] rows@[i])@.len() >= 1,
            out.deep_view() =~= rows.deep_view().take(i as int).map_values(
                |row: Seq<Option<Seq<char>>>| row[0],
            ),
    {
        assert(rows@[i as int]@.len() >= 1);
        let v = copy_option(&rows[i][0]);
        assert(rows.deep_view()[i as int][0] == v.deep_view());
        let ghost before = out.deep_view();
        out.push(v);
        assert(out.deep_view() =~= before.push(v.deep_view()));
        assert(rows.deep_view().take(i + 1) =~= rows.deep_view().take(i as int).push(
            rows.deep_view()[i as int],
        ));
    }
    assert(rows.deep_view().take(n as int) =~= rows.deep_view());
    out
}

/// The first two values of each row, as image tags.
fn image_tags(rows: &Vec<Vec<Option<String>>>) -> (r: Vec<ImageTag>)
    requires
        forall|i: int| 0 <= i < rows@.len() ==> (#[trigger] rows@[i])@.len() >= 2,
    ensures
        r.deep_view() == rows.deep_view().map_values(
            |row: Seq<Option<Seq<char>>>| (row[0], row[1]),
        ),
{
    let mut out: Vec<ImageTag> = Vec::new();
    let n = rows.len();
    for i in 0..n
        invariant
            n == rows@.len(),
            forall|i: int| 0 <= i < rows@.len() ==> (#[trigger] rows@[i])@.len() >= 2,
            out.deep_view() =~= rows.deep_view().take(i as int).map_values(
                |row: Seq<Option<Seq<char>>>| (row[0], row[1]),
            ),
    {
        assert(rows@[i as int]@.len() >= 2);
        let src = copy_option(&rows[i][0]);
        let alt = copy_option(&rows[i][1]);
        assert(rows.deep_view()[i as int][0] == src.deep_view());
        assert(rows.deep_view()[i as int][1] == alt.deep_view());
        let ghost before = out.deep_view();
        let tag = ImageTag { src, alt };
        let ghost tv = tag.deep_view();
        out.push(tag);
        assert(out.deep_view() =~= before.push(tv));
        assert(rows.deep_view().take(i + 1) =~= rows.deep_view().take(i as int).push(
            rows.deep_view()[i as int],
        ));
    }
    assert(rows.deep_view().take(n as int) =~= rows.deep_view());
    out
}

/// What is read out of a page's HTML: the `href` of each `a` element, the
/// text of each `p`, `h1`, `h2`, `h3`, `h4`, `h5` and `title` element, and
/// (where images are recorded) the `src` and `alt` of each `img` element, each
/// in document order.
pub proof fn lemma_page_content_elements(body: Seq<u8>, with_images: bool)
    ensures
        page_content(body, with_images).text_blocks == element_texts_of(
            body,
            seq![
                seq!['p'],
                seq!['h', '1'],
                seq!['h', '2'],
                seq!['h', '3'],
                seq!['h', '4'],
                seq!['h', '5'],
                seq!['t', 'i', 't', 'l', 'e'],
            ],
        ),
        page_content(body, with_images).anchors.len() == attr_values_of(
            body,
            seq!['a'],
            seq![seq!['h', 'r', 'e', 'f']],
        ).len(),
        forall|i: int|
            0 <= i < page_content(body, with_images).anchors.len() ==> #[trigger] page_content(
                body,
                with_images,
            ).anchors[i] == attr_values_of(body, seq!['a'], seq![seq!['h', 'r', 'e', 'f']])[i][0],
        with_images ==> page_content(body, with_images).images.len() == attr_values_of(
            body,
            seq!['i', 'm', 'g'],
            seq![seq!['s', 'r', 'c'], seq!['a', 'l', 't']],
        ).len(),
        with_images ==> forall|i: int|
            0 <= i < page_content(body, with_images).images.len() ==> #[trigger] page_content(
                body,
                with_images,
            ).images[i] == (
                attr_values_of(body, seq!['i', 'm', 'g'], seq![seq!['s', 'r', 'c'], seq!['a', 'l', 't']])[i][0],
                attr_values_of(body, seq!['i', 'm', 'g'], seq![seq!['s', 'r', 'c'], seq!['a', 'l', 't']])[i][1],
            ),
        !with_images ==> page_content(body, with_images).images.len() == 0,
{
    assert(text_elements() =~= seq![
        seq!['p'],
        seq!['h', '1'],
        seq!['h', '2'],
        seq!['h', '3'],
        seq!['h', '4'],
        seq!['h', '5'],
        seq!['t', 'i', 't', 'l', 'e'],
    ]);
    assert(link_attrs() =~= seq![seq!['h', 'r', 'e', 'f']]);
    assert(anchor_element() =~= seq!['a']);
    assert(image_element() =~= seq!['i', 'm', 'g']);
    assert(image_attrs() =~= seq![seq!['s', 'r', 'c'], seq!['a', 'l', 't']]);
}

/// Reads the content of a page out of its body.
pub fn read_page(body: &[u8], with_images: bool) -> (r: Result<PageContent, ScrapeError>)
    requires
        body@.len() <= HTML_MAX_BYTES,
    ensures
        !valid_utf8(body@) ==> r matches Err(ScrapeError::NotUtf8),
        valid_utf8(body@) ==> (r matches Ok(c) && c.deep_view() == page_content(body@, with_images)),
        r matches Ok(c) ==> c.deep_view().text_blocks == element_texts_of(
            body@,
            seq![
                seq!['p'],
                seq!['h', '1'],
                seq!['h', '2'],
                seq!['h', '3'],
                seq!['h', '4'],
                seq!['h', '5'],
                seq!['t', 'i', 't', 'l', 'e'],
            ],
        ),
{
    proof {
        lemma_page_content_elements(body@, with_images);
    }
    let a = word(vec!['a']);
    let mut link_attr_names: Vec<String> = Vec::new();
    link_attr_names.push(word(vec!['h', 'r', 'e', 'f']));
    assert(a@ =~= anchor_element());
    assert(link_attr_names.deep_view() =~= link_attrs());
    let names = text_element_names();
    let img = word(vec!['i', 'm', 'g']);
    let mut image_attr_names: Vec<String> = Vec::new();
    image_attr_names.push(word(vec!['s', 'r', 'c']));
    image_attr_names.push(word(vec!['a', 'l', 't']));
    assert(img@ =~= image_element());
    assert(image_attr_names.deep_view() =~= image_attrs());
    let read = html_read(body, a.as_str(), &link_attr_names, &names, img.as_str(), &image_attr_names);
    let (link_rows, text_blocks, image_rows) = match read {
        Some(v) => v,
        None => return Err(ScrapeError::NotUtf8),
    };
    let anchors = first_values(&link_rows);
    let images = if with_images {
        image_tags(&image_rows)
    } else {
        Vec::new()
    };
    let c = PageContent { anchors, text_blocks, images };
    assert(c.deep_view().images =~= page_content(body@, with_images).images);
    Ok(c)
}

/// A page about to be scraped: its URL, its host, and its home URL
/// (`scheme://host/`, parsed).
pub struct ScrapeTarget {
    page: WebUrl,
    host: String,
    home: WebUrl,
}

/// The mathematical value of a [`ScrapeTarget`].
pub struct TargetView {
    pub page: UrlView,
    pub host: Seq<char>,
    pub home: UrlView,
}

impl View for ScrapeTarget {
    type V = TargetView;

    closed spec fn view(&self) -> TargetView {
        TargetView { page: self.page@, host: self.host@, home: self.home@ }
    }
}

/// The home URL of a page with URL `page`, where it has a host and the home
/// URL text parses.
pub open spec fn target_of(page: UrlView) -> Option<TargetView> {
    match page.host {
        Some(h) => match parsed_url(home_href(page.scheme, h)) {
            Some(home) => Some(TargetView { page, host: h, home }),
            None => None,
        },
        None => None,
    }
}

/// A page's target keeps the page's URL and host, and its home URL is what
/// `scheme://host/` of the page parses to, whatever the page's path; a page
/// has a target exactly when it has a host and that text parses.
pub proof fn lemma_target_home(page: UrlView)
    ensures
        target_of(page) is Some <==> (page.host is Some && parsed_url(
            page.scheme + seq![':', '/', '/'] + page.host->0 + seq!['/'],
        ) is Some),
        target_of(page) matches Some(t) ==> t.page == page && page.host == Some(t.host) && parsed_url(
            page.scheme + seq![':', '/', '/'] + t.host + seq!['/'],
        ) == Some(t.home),
{
}

impl ScrapeTarget {
    #[verifier::type_invariant]
    spec fn well_formed(self) -> bool {
        target_of(self.page@) == Some(self@)
    }

    /// Prepares the scraping of a page: it needs a host, and its home URL
    /// text must parse.
    pub fn new(page: WebUrl) -> (r: Result<ScrapeTarget, ScrapeError>)
        ensures
            page@.host is None ==> r matches Err(ScrapeError::MissingHost),
            page@.host is Some && target_of(page@) is None ==> r matches Err(
                ScrapeError::BadHomeUrl,
            ),
            target_of(page@) matches Some(t) ==> (r matches Ok(target) && target@ == t),
            r matches Ok(target) ==> target@.page == page@ && page@.host == Some(target@.host)
                && parsed_url(page@.scheme + seq![':', '/', '/'] + target@.host + seq!['/']) == Some(
                target@.home,
            ),
    {
        proof {
            lemma_target_home(page@);
        }
        let host = match &page.host {
            Some(h) => h.clone(),
            None => return Err(ScrapeError::MissingHost),
        };
        let home_text = home_href_of(page.scheme.as_str(), host.as_str());
        match url_parse(home_text.as_str()) {
            Some(home) => Ok(ScrapeTarget { page, host, home }),
            None => Err(ScrapeError::BadHomeUrl),
        }
    }

    /// The URL of the page.
    pub fn page(&self) -> (r: &WebUrl)
        ensures
            r@ == self@.page,
    {
        &self.page
    }

    /// The host of the page.
    pub fn host(&self) -> (r: &String)
        ensures
            r@ == self@.host,
    {
        &self.host
    }

    /// The home URL of the page.
    pub fn home(&self) -> (r: &WebUrl)
        ensures
            r@ == self@.home,
    {
        &self.home
    }
}


/// The links of a page to queue for crawling: the last found link of each
/// serialization, in ascending order of serialization.
pub open spec fn crawl_links(page: Seq<char>, anchors: Seq<Option<Seq<char>>>) -> Seq<UrlView> {
    link_set(found_links(page, anchors))
}

/// The home URLs of the queued links: the last of each serialization, in
/// ascending order of serialization.
pub open spec fn home_links(page: Seq<char>, anchors: Seq<Option<Seq<char>>>) -> Seq<UrlView> {
    link_set(link_homes(crawl_links(page, anchors)))
}

/// Whether the links of a page can be planned: every query can be stripped,
/// every queued link's home URL text parses, and every home URL has a host.
pub open spec fn links_plannable(page: Seq<char>, anchors: Seq<Option<Seq<char>>>) -> bool {
    &&& links_strippable(page, anchors)
    &&& homes_parse(crawl_links(page, anchors))
    &&& hosts_present(home_links(page, anchors))
}

/// The serializations of the URLs of a sequence.
fn hrefs_of(urls: &Vec<WebUrl>) -> (r: Vec<String>)
    ensures
        r.deep_view() == hrefs(urls.deep_view()),
{
    let mut out: Vec<String> = Vec::new();
    let n = urls.len();
    for i in 0..n
        invariant
            n == urls@.len(),
            out.deep_view() == hrefs(urls.deep_view().take(i as int)),
    {
        let ghost before = out.deep_view();
        let h = urls[i].href.clone();
        assert(urls.deep_view()[i as int].href == h@);
        out.push(h);
        assert(out.deep_view() =~= before.push(h@));
        assert(hrefs(urls.deep_view().take(i + 1)) =~= hrefs(urls.deep_view().take(i as int)).push(h@));
    }
    assert(urls.deep_view().take(n as int) =~= urls.deep_view());
    out
}

/// The links of a page to queue and the host-level links it counts; `None`
/// where the links cannot be planned.
fn link_plan(page: &WebUrl, host: &String, anchors: &Vec<Option<String>>) -> (r: Option<
    (Vec<String>, Vec<String>),
>)
    ensures
        r is Some <==> links_plannable(page@.href, anchors.deep_view()),
        r matches Some(p) ==> p.0.deep_view() == hrefs(crawl_links(page@.href, anchors.deep_view()))
            && p.1.deep_view() == counted_host_links(host@, home_links(page@.href, anchors.deep_view())),
{
    let found = match found_links_of(page, anchors) {
        Some(f) => f,
        None => return None,
    };
    let crawl = link_set_of(&found);
    let homes = match homes_of(&crawl) {
        Some(h) => h,
        None => return None,
    };
    let home_set = link_set_of(&homes);
    let counted = match host_links_of(host, &home_set) {
        Some(c) => c,
        None => return None,
    };
    Some((hrefs_of(&crawl), counted))
}

/// The links of a page to queue for crawling, with their queries stripped,
/// the last of each URL, in ascending order of URL.
pub fn queue_links(page: &WebUrl, anchors: &Vec<Option<String>>) -> (r: Vec<WebUrl>)
    requires
        links_strippable(page@.href, anchors.deep_view()),
    ensures
        r.deep_view() == crawl_links(page@.href, anchors.deep_view()),
{
    match found_links_of(page, anchors) {
        Some(found) => link_set_of(&found),
        None => {
            assert(false);
            Vec::new()
        },
    }
}

/// The links of a page to queue for crawling, or `None` where a link's query
/// cannot be stripped.
pub fn try_queue_links(page: &WebUrl, anchors: &Vec<Option<String>>) -> (r: Option<Vec<WebUrl>>)
    ensures
        r is Some <==> links_strippable(page@.href, anchors.deep_view()),
        r matches Some(v) ==> v.deep_view() == crawl_links(page@.href, anchors.deep_view()),
{
    match found_links_of(page, anchors) {
        Some(_) => Some(queue_links(page, anchors)),
        None => None,
    }
}

/// The home URLs of the queued links: the last of each URL, in ascending
/// order of URL.
pub fn home_set(links: &Vec<WebUrl>) -> (r: Vec<WebUrl>)
    requires
        homes_parse(links.deep_view()),
    ensures
        r.deep_view() == link_set(link_homes(links.deep_view())),
{
    match homes_of(links) {
        Some(homes) => link_set_of(&homes),
        None => {
            assert(false);
            Vec::new()
        },
    }
}

/// The home URLs of the queued links, or `None` where the home URL text of a
/// link does not parse.
pub fn try_home_set(links: &Vec<WebUrl>) -> (r: Option<Vec<WebUrl>>)
    ensures
        r is Some <==> homes_parse(links.deep_view()),
        r matches Some(v) ==> v.deep_view() == link_set(link_homes(links.deep_view())),
{
    match homes_of(links) {
        Some(_) => Some(home_set(links)),
        None => None,
    }
}

/// A home URL counts as a link from a page exactly when its host differs,
/// as a whole, from the page's host and from `example.com`.
pub proof fn lemma_other_host(page_host: Seq<char>, home: UrlView)
    ensures
        counts_as_host_link(page_host, home) <==> (home.host->0 != page_host && home.host->0 != seq![
            'e',
            'x',
            'a',
            'm',
            'p',
            'l',
            'e',
            '.',
            'c',
            'o',
            'm',
        ]),
{
}

/// Whether a home URL counts as a link from the page whose host is
/// `page_host`: its host is neither the page's host nor the placeholder host.
pub fn is_other_host(page_host: &String, home: &WebUrl) -> (r: bool)
    requires
        home@.host is Some,
    ensures
        r == counts_as_host_link(page_host@, home@),
        r == (home@.host->0 != page_host@ && home@.host->0 != seq![
            'e',
            'x',
            'a',
            'm',
            'p',
            'l',
            'e',
            '.',
            'c',
            'o',
            'm',
        ]),
{
    proof {
        lemma_other_host(page_host@, home@);
    }
    let placeholder = "example.com".to_owned();
    proof {
        reveal_strlit("example.com");
        assert(placeholder@ =~= placeholder_host());
    }
    match &home.host {
        Some(h) => *h != *page_host && *h != placeholder,
        None => false,
    }
}

/// What to store for a scraped page, in the order in which it is stored.
pub struct PagePlan {
    /// The images to record, where images are recorded.
    pub images: Vec<ImageRecord>,
    /// The text to store with the page; `None` where it would be cut inside a
    /// character, and scraping fails after the images are recorded.
    pub stored_text: Option<String>,
    /// The links to queue for crawling.
    pub crawl_queue: Vec<String>,
    /// The home URLs of other hosts that the page links to.
    pub host_links: Vec<String>,
}

/// The mathematical value of a [`PagePlan`].
pub struct PagePlanView {
    pub images: Seq<(Seq<char>, Seq<char>)>,
    pub stored_text: Option<Seq<char>>,
    pub crawl_queue: Seq<Seq<char>>,
    pub host_links: Seq<Seq<char>>,
}

impl DeepView for PagePlan {
    type V = PagePlanView;

    open spec fn deep_view(&self) -> PagePlanView {
        PagePlanView {
            images: self.images.deep_view(),
            stored_text: self.stored_text.deep_view(),
            crawl_queue: self.crawl_queue.deep_view(),
            host_links: self.host_links.deep_view(),
        }
    }
}

/// Whether a page can be planned (see [`links_plannable`]).
pub open spec fn page_plannable(target: TargetView, content: PageContentView) -> bool {
    links_plannable(target.page.href, content.anchors)
}

/// What is stored for a page.
pub open spec fn page_plan(
    target: TargetView,
    content: PageContentView,
    with_images: bool,
) -> PagePlanView {
    let text = page_text(content.text_blocks);
    PagePlanView {
        images: if with_images {
            image_rows(target.page.href, content.images)
        } else {
            Seq::empty()
        },
        stored_text: if cut_on_boundary(text) {
            Some(stored_text(text, target.page.href))
        } else {
            None
        },
        crawl_queue: hrefs(crawl_links(target.page.href, content.anchors)),
        host_links: counted_host_links(target.host, home_links(target.page.href, content.anchors)),
    }
}

/// Plans what to store for a page with the given content.
pub fn plan_page(target: &ScrapeTarget, content: &PageContent, with_images: bool) -> (r: PagePlan)
    requires
        page_plannable(target@, content.deep_view()),
    ensures
        r.deep_view() == page_plan(target@, content.deep_view(), with_images),
        target_of(target@.page) == Some(target@),
{
    proof {
        use_type_invariant(target);
    }
    let (crawl_queue, host_links) = match link_plan(&target.page, &target.host, &content.anchors) {
        Some(p) => p,
        None => {
            assert(false);
            (Vec::new(), Vec::new())
        },
    };
    let images = if with_images {
        image_records(&target.page, &content.images)
    } else {
        Vec::new()
    };
    let text = join_blocks(&content.text_blocks);
    let stored_text = text_for_index(text.as_str(), target.page.href.as_str());
    let r = PagePlan { images, stored_text, crawl_queue, host_links };
    assert(r.deep_view().images =~= page_plan(target@, content.deep_view(), with_images).images);
    r
}

/// Plans what to store for a page, or `None` where the page cannot be
/// planned.
pub fn try_plan_page(target: &ScrapeTarget, content: &PageContent, with_images: bool) -> (r: Option<
    PagePlan,
>)
    ensures
        r is Some <==> page_plannable(target@, content.deep_view()),
        r matches Some(p) ==> p.deep_view() == page_plan(target@, content.deep_view(), with_images),
        target_of(target@.page) == Some(target@),
{
    proof {
        use_type_invariant(target);
    }
    match link_plan(&target.page, &target.host, &content.anchors) {
        Some(_) => Some(plan_page(target, content, with_images)),
        None => None,
    }
}


/// Each link found on a page is queued once: the queue is strictly ascending
/// by URL, and holds exactly the URLs of the links found (queries stripped).
pub proof fn lemma_crawl_queue(page: Seq<char>, anchors: Seq<Option<Seq<char>>>)
    ensures
        forall|i: int, j: int|
            0 <= i < j < hrefs(crawl_links(page, anchors)).len() ==> href_lt(
                #[trigger] hrefs(crawl_links(page, anchors))[i],
                #[trigger] hrefs(crawl_links(page, anchors))[j],
            ),
        forall|h: Seq<char>|
            #[trigger] hrefs(crawl_links(page, anchors)).contains(h) <==> hrefs(
                found_links(page, anchors),
            ).contains(h),
{
    lemma_link_set_properties(found_links(page, anchors));
}

/// Whether `href` is the URL of one of the home URLs `homes` whose host is
/// neither `page_host` nor the placeholder host.
pub open spec fn is_other_host_home(homes: Seq<UrlView>, page_host: Seq<char>, href: Seq<char>) -> bool {
    exists|k: int| 0 <= k < homes.len() && homes[k].href == href && counts_as_host_link(page_host, homes[k])
}

/// The host-level links counted for a page point to home URLs of other hosts:
/// each is the URL of a home URL whose host is neither the page's host nor
/// the placeholder host; they come in strictly ascending order where the home
/// URLs do; and every such home URL is counted.
#[verifier::spinoff_prover]
pub proof fn lemma_counted_host_links(page_host: Seq<char>, homes: Seq<UrlView>)
    requires
        hosts_present(homes),
    ensures
        forall|i: int|
            0 <= i < counted_host_links(page_host, homes).len() ==> is_other_host_home(
                homes,
                page_host,
                #[trigger] counted_host_links(page_host, homes)[i],
            ),
        forall|j: int|
            0 <= j < homes.len() && counts_as_host_link(page_host, #[trigger] homes[j]) ==> counted_host_links(
                page_host,
                homes,
            ).contains(homes[j].href),
        ascending(homes) ==> forall|i: int, k: int|
            0 <= i < k < counted_host_links(page_host, homes).len() ==> href_lt(
                #[trigger] counted_host_links(page_host, homes)[i],
                #[trigger] counted_host_links(page_host, homes)[k],
            ),
    decreases homes.len(),
{
    if homes.len() > 0 {
        let init = homes.drop_last();
        assert(hosts_present(init)) by {
            assert forall|i: int| 0 <= i < init.len() implies (#[trigger] init[i]).host is Some by {
                assert(init[i] == homes[i]);
            }
        }
        lemma_counted_host_links(page_host, init);
        let c0 = counted_host_links(page_host, init);
        let c = counted_host_links(page_host, homes);
        let last = homes.last();
        assert forall|i: int| 0 <= i < c.len() implies is_other_host_home(homes, page_host, #[trigger] c[i]) by {
            if i < c0.len() {
                assert(c[i] == c0[i]);
                assert(is_other_host_home(init, page_host, c0[i]));
                let j = choose|j: int|
                    0 <= j < init.len() && init[j].href == c0[i] && counts_as_host_link(page_host, init[j]);
                assert(homes[j] == init[j]);
            } else {
                let j = homes.len() - 1;
                assert(counts_as_host_link(page_host, last));
                assert(c == c0.push(last.href));
                assert(c[i] == last.href);
                assert(homes[j] == last);
            }
        }
        assert forall|j: int|
            0 <= j < homes.len() && counts_as_host_link(page_host, #[trigger] homes[j]) implies c.contains(
                homes[j].href,
            ) by {
            if j < init.len() {
                assert(init[j] == homes[j]);
                assert(c0.contains(homes[j].href));
                let k = choose|k: int| 0 <= k < c0.len() && c0[k] == homes[j].href;
                assert(c[k] == homes[j].href);
            } else {
                assert(c[c.len() - 1] == homes[j].href);
            }
        }
        if ascending(homes) {
            assert(ascending(init)) by {
                assert forall|a: int, b: int| 0 <= a < b < init.len() implies href_lt(
                    #[trigger] init[a].href,
                    #[trigger] init[b].href,
                ) by {
                    assert(init[a] == homes[a] && init[b] == homes[b]);
                }
            }
            assert forall|i: int, k: int| 0 <= i < k < c.len() implies href_lt(
                #[trigger] c[i],
                #[trigger] c[k],
            ) by {
                if k < c0.len() {
                    assert(c[i] == c0[i] && c[k] == c0[k]);
                } else {
                    assert(c[i] == c0[i]);
                    assert(is_other_host_home(init, page_host, c0[i]));
                    let j = choose|j: int|
                        0 <= j < init.len() && init[j].href == c0[i] && counts_as_host_link(page_host, init[j]);
                    assert(homes[j] == init[j]);
                    assert(c == c0.push(last.href));
                    assert(href_lt(homes[j].href, homes[homes.len() - 1].href));
                }
            }
        }
    }
}



/// For a page that can be planned: the queue holds each found link once, in
/// strictly ascending order of URL; the host-level links are strictly
/// ascending, each the home URL of a queued link whose host is neither the
/// page's own host nor the placeholder host.
pub proof fn lemma_page_plan_links(target: TargetView, content: PageContentView, with_images: bool)
    requires
        target_of(target.page) == Some(target),
        page_plannable(target, content),
    ensures
        forall|i: int, j: int|
            0 <= i < j < page_plan(target, content, with_images).crawl_queue.len() ==> href_lt(
                #[trigger] page_plan(target, content, with_images).crawl_queue[i],
                #[trigger] page_plan(target, content, with_images).crawl_queue[j],
            ),
        forall|h: Seq<char>|
            #[trigger] page_plan(target, content, with_images).crawl_queue.contains(h) <==> hrefs(
                found_links(target.page.href, content.anchors),
            ).contains(h),
        forall|i: int, j: int|
            0 <= i < j < page_plan(target, content, with_images).host_links.len() ==> href_lt(
                #[trigger] page_plan(target, content, with_images).host_links[i],
                #[trigger] page_plan(target, content, with_images).host_links[j],
            ),
        forall|i: int|
            0 <= i < page_plan(target, content, with_images).host_links.len() ==> is_other_host_home(
                home_links(target.page.href, content.anchors),
                target.page.host->0,
                #[trigger] page_plan(target, content, with_images).host_links[i],
            ),
{
    let page = target.page.href;
    lemma_crawl_queue(page, content.anchors);
    lemma_link_set_properties(link_homes(crawl_links(page, content.anchors)));
    lemma_counted_host_links(target.host, home_links(page, content.anchors));
    let plan = page_plan(target, content, with_images);
    let homes = home_links(page, content.anchors);
    assert(target.page.host->0 == target.host);
    assert(plan.host_links == counted_host_links(target.host, homes));
    assert(ascending(homes));
    assert(plan.crawl_queue == hrefs(crawl_links(page, content.anchors)));
    let c = plan.host_links;
    assert forall|i: int| 0 <= i < c.len() implies is_other_host_home(
        homes,
        target.page.host->0,
        #[trigger] c[i],
    ) by {
        assert(is_other_host_home(homes, target.host, c[i]));
    }
}

} // verus!
