//! Search backends. Bangs are never interpreted here: SearXNG resolves engine
//! bangs server-side and still answers with unified JSON, while DuckDuckGo
//! resolves navigational bangs into a redirect whose destination is surfaced.
//! Unknown bangs degrade to a normal search.
//!
//! The network exchange is driven by the caller: `run` names the first request,
//! `advance` takes the reply to a request and names the next request or the
//! outcome.

use vstd::prelude::*;

use crate::text::{
    before_any, before_any_chars, chars_of, contains, contains_chars, find, find_chars, is_alnum,
    is_ascii_alphanumeric, lemma_find_some, opt_view, replace, replace_chars, slice_of, split,
    split_chars, split_whitespace, starts_with, starts_with_chars, string_of, trim, trim_chars,
    str_is, is_ws, words_from, lemma_trim, trim_str, trimmed_nonblank, nonblank_trimmed, concat, views, words,
};
use crate::config::Config;

verus! {

// ---------------------------------------------------------------------------
// Bang detection
// ---------------------------------------------------------------------------

/// `w` is `!` followed by one or more ASCII letters or digits.
pub open spec fn is_bang(w: Seq<char>) -> bool {
    &&& w.len() > 1
    &&& w[0] == '!'
    &&& forall|k: int| 1 <= k < w.len() ==> is_alnum(w[k])
}

/// A query "has a bang" when its first or last whitespace-separated word is a
/// bang.
pub open spec fn has_bang_spec(q: Seq<char>) -> bool {
    let ws = words(q);
    ws.len() > 0 && (is_bang(ws[0]) || is_bang(ws.last()))
}

fn is_bang_word(w: &Vec<char>) -> (b: bool)
    ensures
        b == is_bang(w@),
{
    if w.len() <= 1 || w[0] != '!' {
        return false;
    }
    let mut k: usize = 1;
    while k < w.len()
        invariant
            1 <= k <= w.len(),
            forall|m: int| 1 <= m < k ==> is_alnum(w@[m]),
        decreases w.len() - k,
    {
        if !is_ascii_alphanumeric(w[k]) {
            return false;
        }
        k = k + 1;
    }
    true
}

/// Detection only; interpretation stays with the engine.
pub fn has_bang(query: &str) -> (b: bool)
    ensures
        b == has_bang_spec(query@),
{
    let q = chars_of(query);
    let ws = split_whitespace(&q);
    if ws.len() == 0 {
        return false;
    }
    assert(ws@[0]@ == words(q@)[0]);
    assert(ws@[ws.len() - 1]@ == words(q@).last());
    is_bang_word(&ws[0]) || is_bang_word(&ws[ws.len() - 1])
}

// ---------------------------------------------------------------------------
// Markup helpers
// ---------------------------------------------------------------------------

/// The characters of `s` outside `<...>` tags, where `in_tag` says whether a
/// tag is open before `s`.
pub open spec fn untag(s: Seq<char>, in_tag: bool) -> Seq<char>
    decreases s.len(),
{
    if s.len() == 0 {
        s
    } else if s[0] == '<' {
        untag(s.drop_first(), true)
    } else if s[0] == '>' {
        untag(s.drop_first(), false)
    } else if !in_tag {
        seq![s[0]] + untag(s.drop_first(), in_tag)
    } else {
        untag(s.drop_first(), in_tag)
    }
}

/// The seven HTML entities that result markup uses, replaced in this order.
pub open spec fn unescape(s: Seq<char>) -> Seq<char> {
    let s1 = replace(s, "&amp;"@, "&"@);
    let s2 = replace(s1, "&lt;"@, "<"@);
    let s3 = replace(s2, "&gt;"@, ">"@);
    let s4 = replace(s3, "&quot;"@, "\""@);
    let s5 = replace(s4, "&#x27;"@, "'"@);
    let s6 = replace(s5, "&#39;"@, "'"@);
    replace(s6, "&nbsp;"@, " "@)
}

/// Tags removed, entities replaced, whitespace trimmed.
pub open spec fn strip_tags_spec(s: Seq<char>) -> Seq<char> {
    trim(unescape(untag(s, false)))
}

fn untag_chars(v: &Vec<char>) -> (r: Vec<char>)
    ensures
        r@ == untag(v@, false),
{
    let n = v.len();
    let mut out: Vec<char> = Vec::new();
    let mut in_tag = false;
    let mut i: usize = 0;
    assert(v@.skip(0) == v@);
    while i < n
        invariant
            n == v.len(),
            i <= n,
            untag(v@, false) == out@ + untag(v@.skip(i as int), in_tag),
        decreases n - i,
    {
        let c = v[i];
        assert(v@.skip(i as int)[0] == c);
        assert(v@.skip(i as int).drop_first() == v@.skip(i + 1));
        if c == '<' {
            in_tag = true;
        } else if c == '>' {
            in_tag = false;
        } else if !in_tag {
            let ghost old_out = out@;
            out.push(c);
            assert(old_out + (seq![c] + untag(v@.skip(i + 1), in_tag)) == out@ + untag(
                v@.skip(i + 1),
                in_tag,
            ));
        }
        i = i + 1;
    }
    assert(v@.skip(n as int) == Seq::<char>::empty());
    assert(out@ + Seq::<char>::empty() == out@);
    out
}

fn replace_lit(v: &Vec<char>, pat: &str, rep: &str) -> (r: Vec<char>)
    requires
        pat@.len() > 0,
    ensures
        r@ == replace(v@, pat@, rep@),
{
    let p = chars_of(pat);
    let q = chars_of(rep);
    replace_chars(v, &p, &q)
}

fn strip_tags_chars(v: &Vec<char>) -> (r: Vec<char>)
    ensures
        r@ == strip_tags_spec(v@),
{
    let s0 = untag_chars(v);
    proof {
        reveal_strlit("&amp;");
        reveal_strlit("&lt;");
        reveal_strlit("&gt;");
        reveal_strlit("&quot;");
        reveal_strlit("&#x27;");
        reveal_strlit("&#39;");
        reveal_strlit("&nbsp;");
    }
    let s1 = replace_lit(&s0, "&amp;", "&");
    let s2 = replace_lit(&s1, "&lt;", "<");
    let s3 = replace_lit(&s2, "&gt;", ">");
    let s4 = replace_lit(&s3, "&quot;", "\"");
    let s5 = replace_lit(&s4, "&#x27;", "'");
    let s6 = replace_lit(&s5, "&#39;", "'");
    let s7 = replace_lit(&s6, "&nbsp;", " ");
    trim_chars(&s7)
}

/// Removes tags, decodes the common entities and trims.
pub fn strip_tags(s: &str) -> (r: String)
    ensures
        r@ == strip_tags_spec(s@),
{
    let v = chars_of(s);
    string_of(&strip_tags_chars(&v))
}

/// The text of `block` after the first `open` and before the next `close` (or
/// the end), with tags stripped; empty when `open` does not occur.
pub open spec fn text_between_spec(block: Seq<char>, open: Seq<char>, close: Seq<char>) -> Seq<
    char,
> {
    match find(block, open) {
        None => seq![],
        Some(i) => {
            let start = i + open.len();
            let end = match find(block.skip(start), close) {
                Some(j) => start + j,
                None => block.len() as int,
            };
            strip_tags_spec(block.subrange(start, end))
        },
    }
}

fn text_between_chars(block: &Vec<char>, open: &Vec<char>, close: &Vec<char>) -> (r: Vec<char>)
    ensures
        r@ == text_between_spec(block@, open@, close@),
{
    proof {
        lemma_find_some(block@, open@);
    }
    match find_chars(block, open) {
        None => Vec::new(),
        Some(i) => {
            let start = i + open.len();
            let rest = slice_of(block, start, block.len());
            assert(rest@ == block@.skip(start as int));
            proof {
                lemma_find_some(rest@, close@);
            }
            let end = match find_chars(&rest, close) {
                Some(j) => start + j,
                None => block.len(),
            };
            let inner = slice_of(block, start, end);
            strip_tags_chars(&inner)
        },
    }
}

/// The text between the first `open` and the next `close`, tags stripped.
pub fn text_between(block: &str, open: &str, close: &str) -> (r: String)
    ensures
        r@ == text_between_spec(block@, open@, close@),
{
    let b = chars_of(block);
    let o = chars_of(open);
    let c = chars_of(close);
    string_of(&text_between_chars(&b, &o, &c))
}

/// The text after the first `marker` up to the next `"`; `None` when either is
/// missing.
pub open spec fn attr_after_spec(block: Seq<char>, marker: Seq<char>) -> Option<Seq<char>> {
    match find(block, marker) {
        None => None,
        Some(i) => {
            let start = i + marker.len();
            match find(block.skip(start), seq!['"']) {
                None => None,
                Some(j) => Some(block.subrange(start, start + j)),
            }
        },
    }
}

fn attr_after_chars(block: &Vec<char>, marker: &Vec<char>) -> (r: Option<Vec<char>>)
    ensures
        match r {
            Some(v) => attr_after_spec(block@, marker@) == Some(v@),
            None => attr_after_spec(block@, marker@) is None,
        },
{
    proof {
        lemma_find_some(block@, marker@);
    }
    let i = match find_chars(block, marker) {
        Some(i) => i,
        None => return None,
    };
    let start = i + marker.len();
    let rest = slice_of(block, start, block.len());
    assert(rest@ == block@.skip(start as int));
    let quote = vec!['"'];
    assert(quote@ == seq!['"']);
    proof {
        lemma_find_some(rest@, quote@);
    }
    let j = match find_chars(&rest, &quote) {
        Some(j) => j,
        None => return None,
    };
    Some(slice_of(block, start, start + j))
}

/// The attribute text after `marker` up to the closing quote.
pub fn attr_after(block: &str, marker: &str) -> (r: Option<String>)
    ensures
        opt_view(r) == attr_after_spec(block@, marker@),
{
    let b = chars_of(block);
    let m = chars_of(marker);
    match attr_after_chars(&b, &m) {
        Some(v) => Some(string_of(&v)),
        None => None,
    }
}

// ---------------------------------------------------------------------------
// Percent-decoding
// ---------------------------------------------------------------------------

/// What `urlencoding::decode` gives for a string: the percent-decoded text, or
/// `None` when the decoded bytes are not UTF-8.
pub uninterp spec fn percent_decoded(s: Seq<char>) -> Option<Seq<char>>;

/// `urlencoding::decode`. Its result is named by `percent_decoded`; the
/// contract states besides only that a string without `%` comes back
/// unchanged (the crate then returns its argument as it is). How `%XX`
/// escapes are decoded is not stated.
#[verifier::external_body]
fn percent_decode(s: &str) -> (r: Option<String>)
    ensures
        opt_view(r) == percent_decoded(s@),
        !s@.contains('%') ==> opt_view(r) == Some(s@),
{
    match urlencoding::decode(s) {
        Ok(d) => Some(d.into_owned()),
        Err(_) => None,
    }
}

/// The value of the `uddg=` parameter of a DuckDuckGo link: the text after the
/// first `uddg=` up to the next `&` or the end.
pub open spec fn uddg_param(url: Seq<char>) -> Option<Seq<char>> {
    match find(url, "uddg="@) {
        None => None,
        Some(i) => {
            let start = i + "uddg="@.len();
            let end = match find(url.skip(start), "&"@) {
                Some(j) => start + j,
                None => url.len() as int,
            };
            Some(url.subrange(start, end))
        },
    }
}

/// The destination of a DuckDuckGo link: its decoded `uddg` parameter, or the
/// link itself when there is none or it does not decode.
pub open spec fn uddg_target(url: Seq<char>) -> Seq<char> {
    match uddg_param(url) {
        None => url,
        Some(p) => match percent_decoded(p) {
            Some(d) => d,
            None => url,
        },
    }
}

fn uddg_param_chars(url: &Vec<char>) -> (r: Option<Vec<char>>)
    ensures
        match r {
            Some(v) => uddg_param(url@) == Some(v@),
            None => uddg_param(url@) is None,
        },
{
    proof {
        reveal_strlit("uddg=");
        reveal_strlit("&");
    }
    let key = chars_of("uddg=");
    let amp = chars_of("&");
    let i = match find_chars(url, &key) {
        Some(i) => i,
        None => return None,
    };
    let start = i + key.len();
    let rest = slice_of(url, start, url.len());
    assert(rest@ == url@.skip(start as int));
    let end = match find_chars(&rest, &amp) {
        Some(j) => start + j,
        None => url.len(),
    };
    Some(slice_of(url, start, end))
}

/// The decoded text when decoding succeeded, else the original.
pub fn decoded_or_original(decoded: Option<String>, original: &str) -> (r: String)
    ensures
        r@ == match opt_view(decoded) {
            Some(d) => d,
            None => original@,
        },
{
    match decoded {
        Some(d) => d,
        None => original.to_owned(),
    }
}

/// Unwraps DuckDuckGo's `/l/?uddg=<destination>` redirect links.
pub fn decode_uddg(url: &str) -> (r: String)
    ensures
        r@ == uddg_target(url@),
{
    let u = chars_of(url);
    match uddg_param_chars(&u) {
        None => url.to_owned(),
        Some(p) => {
            let ps = string_of(&p);
            let decoded = percent_decode(ps.as_str());
            decoded_or_original(decoded, url)
        },
    }
}

// ---------------------------------------------------------------------------
// Bang redirect pages
// ---------------------------------------------------------------------------

/// The still-encoded destination of a bang redirect page: the text after the
/// first `/l/?uddg=` up to the first `&`, `'`, `"` or `<`.
pub open spec fn redirect_param(body: Seq<char>) -> Option<Seq<char>> {
    match find(body, "/l/?uddg="@) {
        None => None,
        Some(i) => Some(before_any(body.skip(i + "/l/?uddg="@.len()), seq!['&', '\'', '"', '<'])),
    }
}

/// A decoded destination is taken only when it is an http(s) URL.
pub open spec fn accept_destination(d: Seq<char>) -> Option<Seq<char>> {
    if starts_with(d, "http://"@) || starts_with(d, "https://"@) {
        Some(d)
    } else {
        None
    }
}

/// Where a DuckDuckGo bang page redirects, if it is a redirect page at all.
pub open spec fn redirect_target(body: Seq<char>) -> Option<Seq<char>> {
    match redirect_param(body) {
        None => None,
        Some(p) => match percent_decoded(p) {
            None => None,
            Some(d) => accept_destination(d),
        },
    }
}

/// The destination that a decoded redirect parameter gives, if any.
pub fn destination_from(decoded: Option<String>) -> (r: Option<String>)
    ensures
        opt_view(r) == match opt_view(decoded) {
            Some(d) => accept_destination(d),
            None => None,
        },
{
    match decoded {
        None => None,
        Some(d) => {
            let v = chars_of(d.as_str());
            let http = chars_of("http://");
            let https = chars_of("https://");
            if starts_with_chars(&v, &http) || starts_with_chars(&v, &https) {
                Some(d)
            } else {
                None
            }
        },
    }
}

/// DuckDuckGo answers a recognized bang with a meta-refresh page pointing at
/// `/l/?uddg=<percent-encoded destination>`. An absent marker means the bang
/// was not recognized.
pub fn parse_bang_redirect(body: &str) -> (r: Option<String>)
    ensures
        opt_view(r) == redirect_target(body@),
{
    proof {
        reveal_strlit("/l/?uddg=");
    }
    let b = chars_of(body);
    let marker = chars_of("/l/?uddg=");
    let i = match find_chars(&b, &marker) {
        Some(i) => i,
        None => return None,
    };
    let rest = slice_of(&b, i + marker.len(), b.len());
    assert(rest@ == b@.skip(i + "/l/?uddg="@.len()));
    let stops = vec!['&', '\'', '"', '<'];
    assert(stops@ == seq!['&', '\'', '"', '<']);
    let encoded = before_any_chars(&rest, &stops);
    let es = string_of(&encoded);
    let decoded = percent_decode(es.as_str());
    destination_from(decoded)
}

/// A bang page's destination is always an http(s) URL.
pub proof fn law_destination_is_web_url(body: Seq<char>)
    ensures
        redirect_target(body) matches Some(d) ==> starts_with(d, "http://"@) || starts_with(
            d,
            "https://"@,
        ),
{
}

// ---------------------------------------------------------------------------
// DuckDuckGo result pages
// ---------------------------------------------------------------------------

/// One search result.
#[derive(Debug)]
pub struct SearchResult {
    pub title: String,
    pub url: String,
    pub snippet: String,
}

impl View for SearchResult {
    /// Title, URL, snippet.
    type V = (Seq<char>, Seq<char>, Seq<char>);

    open spec fn view(&self) -> (Seq<char>, Seq<char>, Seq<char>) {
        (self.title@, self.url@, self.snippet@)
    }
}

pub open spec fn hits_of(rs: Seq<SearchResult>) -> Seq<(Seq<char>, Seq<char>, Seq<char>)> {
    rs.map_values(|r: SearchResult| r@)
}

/// The snippet of a result block: the text of the link after the first
/// `class="result__snippet"`, empty when there is none.
pub open spec fn snippet_spec(block: Seq<char>) -> Seq<char> {
    let parts = split(block, "class=\"result__snippet\""@);
    if parts.len() > 1 {
        text_between_spec(parts[1], ">"@, "</a>"@)
    } else {
        seq![]
    }
}

/// The result that one block of a result page gives: none when it has no
/// `href`, or when its destination is not an http URL or points back at
/// DuckDuckGo.
pub open spec fn block_hit(block: Seq<char>) -> Option<(Seq<char>, Seq<char>, Seq<char>)> {
    match attr_after_spec(block, "href=\""@) {
        None => None,
        Some(href) => {
            let url = uddg_target(href);
            if !starts_with(url, "http"@) || contains(url, "duckduckgo.com"@) {
                None
            } else {
                Some((text_between_spec(block, ">"@, "</a>"@), url, snippet_spec(block)))
            }
        },
    }
}

/// The results of the blocks, in order, at most `num` of them.
pub open spec fn collect_hits(blocks: Seq<Seq<char>>, num: nat) -> Seq<
    (Seq<char>, Seq<char>, Seq<char>),
>
    decreases blocks.len(),
{
    if blocks.len() == 0 || num == 0 {
        seq![]
    } else {
        match block_hit(blocks[0]) {
            Some(h) => seq![h] + collect_hits(blocks.drop_first(), (num - 1) as nat),
            None => collect_hits(blocks.drop_first(), num),
        }
    }
}

/// The results of a DuckDuckGo HTML result page: the blocks are the pieces
/// after each `class="result__a"`.
pub open spec fn ddg_results_spec(body: Seq<char>, num: nat) -> Seq<
    (Seq<char>, Seq<char>, Seq<char>),
> {
    collect_hits(split(body, "class=\"result__a\""@).drop_first(), num)
}

fn snippet_chars(block: &Vec<char>) -> (r: Vec<char>)
    ensures
        r@ == snippet_spec(block@),
{
    proof {
        reveal_strlit("class=\"result__snippet\"");
    }
    let marker = chars_of("class=\"result__snippet\"");
    let parts = split_chars(block, &marker);
    if parts.len() > 1 {
        assert(parts@[1]@ == views(parts@)[1]);
        let open = chars_of(">");
        let close = chars_of("</a>");
        text_between_chars(&parts[1], &open, &close)
    } else {
        Vec::new()
    }
}

fn block_result(block: &Vec<char>) -> (r: Option<SearchResult>)
    ensures
        match r {
            Some(h) => block_hit(block@) == Some(h@),
            None => block_hit(block@) is None,
        },
{
    let href_marker = chars_of("href=\"");
    let href = match attr_after_chars(block, &href_marker) {
        Some(h) => h,
        None => return None,
    };
    let href_s = string_of(&href);
    let url = decode_uddg(href_s.as_str());
    let u = chars_of(url.as_str());
    let http = chars_of("http");
    let ddg = chars_of("duckduckgo.com");
    if !starts_with_chars(&u, &http) || contains_chars(&u, &ddg) {
        return None;
    }
    let open = chars_of(">");
    let close = chars_of("</a>");
    let title = text_between_chars(block, &open, &close);
    let snippet = snippet_chars(block);
    Some(SearchResult { title: string_of(&title), url, snippet: string_of(&snippet) })
}

proof fn lemma_split_nonempty(s: Seq<char>, sep: Seq<char>)
    ensures
        split(s, sep).len() >= 1,
{
}

/// Minimal extraction of DuckDuckGo HTML results, at most `num` of them.
pub fn parse_ddg_results(body: &str, num: usize) -> (r: Vec<SearchResult>)
    ensures
        hits_of(r@) == ddg_results_spec(body@, num as nat),
{
    proof {
        reveal_strlit("class=\"result__a\"");
    }
    let b = chars_of(body);
    let marker = chars_of("class=\"result__a\"");
    let blocks = split_chars(&b, &marker);
    proof {
        lemma_split_nonempty(b@, marker@);
        assert(views(blocks@).skip(1) == split(b@, marker@).drop_first());
    }
    let mut results: Vec<SearchResult> = Vec::new();
    let mut i: usize = 1;
    while i < blocks.len()
        invariant
            1 <= i <= blocks.len(),
            results.len() <= num,
            ddg_results_spec(body@, num as nat) == hits_of(results@) + collect_hits(
                views(blocks@).skip(i as int),
                (num - results.len()) as nat,
            ),
        decreases blocks.len() - i,
    {
        if results.len() >= num {
            assert(collect_hits(views(blocks@).skip(i as int), 0) == Seq::<
                (Seq<char>, Seq<char>, Seq<char>),
            >::empty());
            assert(hits_of(results@) + Seq::<(Seq<char>, Seq<char>, Seq<char>)>::empty()
                == hits_of(results@));
            return results;
        }
        let ghost bs = views(blocks@).skip(i as int);
        assert(bs[0] == blocks@[i as int]@);
        assert(bs.drop_first() == views(blocks@).skip(i + 1));
        match block_result(&blocks[i]) {
            Some(h) => {
                let ghost old_results = results@;
                results.push(h);
                assert(hits_of(results@) == hits_of(old_results) + seq![h@]);
            },
            None => {},
        }
        i = i + 1;
    }
    assert(views(blocks@).skip(i as int) == Seq::<Seq<char>>::empty());
    assert(hits_of(results@) + Seq::<(Seq<char>, Seq<char>, Seq<char>)>::empty() == hits_of(
        results@,
    ));
    results
}

// ---------------------------------------------------------------------------
// SearXNG
// ---------------------------------------------------------------------------

/// One entry of a SearXNG JSON answer (missing fields read as empty).
pub struct SearxEntry {
    pub title: String,
    pub url: String,
    pub content: Option<String>,
}

impl View for SearxEntry {
    /// Title, URL, content.
    type V = (Seq<char>, Seq<char>, Option<Seq<char>>);

    open spec fn view(&self) -> (Seq<char>, Seq<char>, Option<Seq<char>>) {
        (self.title@, self.url@, opt_view(self.content))
    }
}

pub open spec fn entries_of(es: Seq<SearxEntry>) -> Seq<(Seq<char>, Seq<char>, Option<Seq<char>>)> {
    es.map_values(|e: SearxEntry| e@)
}

/// The result an entry gives: a blank title falls back to the URL, a missing
/// content to an empty snippet.
pub open spec fn entry_hit(e: (Seq<char>, Seq<char>, Option<Seq<char>>)) -> (
    Seq<char>,
    Seq<char>,
    Seq<char>,
) {
    (
        if trim(e.0).len() == 0 {
            e.1
        } else {
            e.0
        },
        e.1,
        match e.2 {
            Some(c) => c,
            None => seq![],
        },
    )
}

/// The entries with a non-blank URL, in order, at most `num` of them, as
/// results.
pub open spec fn searxng_hits(es: Seq<(Seq<char>, Seq<char>, Option<Seq<char>>)>, num: nat) -> Seq<
    (Seq<char>, Seq<char>, Seq<char>),
>
    decreases es.len(),
{
    if es.len() == 0 || num == 0 {
        seq![]
    } else if trim(es[0].1).len() == 0 {
        searxng_hits(es.drop_first(), num)
    } else {
        seq![entry_hit(es[0])] + searxng_hits(es.drop_first(), (num - 1) as nat)
    }
}

/// The results of a SearXNG answer, at most `num` of them.
pub fn searxng_results(entries: &Vec<SearxEntry>, num: usize) -> (r: Vec<SearchResult>)
    ensures
        hits_of(r@) == searxng_hits(entries_of(entries@), num as nat),
{
    let mut results: Vec<SearchResult> = Vec::new();
    let mut i: usize = 0;
    assert(entries_of(entries@).skip(0) == entries_of(entries@));
    while i < entries.len()
        invariant
            i <= entries.len(),
            results.len() <= num,
            searxng_hits(entries_of(entries@), num as nat) == hits_of(results@) + searxng_hits(
                entries_of(entries@).skip(i as int),
                (num - results.len()) as nat,
            ),
        decreases entries.len() - i,
    {
        if results.len() >= num {
            assert(hits_of(results@) + Seq::<(Seq<char>, Seq<char>, Seq<char>)>::empty()
                == hits_of(results@));
            return results;
        }
        let ghost es = entries_of(entries@).skip(i as int);
        let e = &entries[i];
        assert(es[0] == e@);
        assert(es.drop_first() == entries_of(entries@).skip(i + 1));
        let url_trimmed = trim_str(e.url.as_str());
        if url_trimmed.len() > 0 {
            let title_trimmed = trim_str(e.title.as_str());
            let title = if title_trimmed.len() == 0 {
                e.url.clone()
            } else {
                e.title.clone()
            };
            let snippet = match &e.content {
                Some(c) => c.clone(),
                None => String::new(),
            };
            let hit = SearchResult { title, url: e.url.clone(), snippet };
            assert(hit@ == entry_hit(e@));
            let ghost old_results = results@;
            results.push(hit);
            assert(hits_of(results@) == hits_of(old_results) + seq![hit@]);
        }
        i = i + 1;
    }
    assert(entries_of(entries@).skip(i as int) == Seq::<
        (Seq<char>, Seq<char>, Option<Seq<char>>),
    >::empty());
    assert(hits_of(results@) + Seq::<(Seq<char>, Seq<char>, Seq<char>)>::empty() == hits_of(
        results@,
    ));
    results
}

/// `s` without trailing slashes.
pub open spec fn trim_end_slashes(s: Seq<char>) -> Seq<char>
    decreases s.len(),
{
    if s.len() > 0 && s.last() == '/' {
        trim_end_slashes(s.drop_last())
    } else {
        s
    }
}

/// The configured instance, trimmed, unless it is missing or blank.
pub open spec fn searxng_base(url: Option<Seq<char>>) -> Option<Seq<char>> {
    match url {
        Some(u) => trimmed_nonblank(u),
        None => None,
    }
}

/// The search endpoint of an instance.
pub open spec fn searxng_endpoint(base: Seq<char>) -> Seq<char> {
    trim_end_slashes(base) + "/search"@
}

fn endpoint_of(base: &Vec<char>) -> (r: String)
    ensures
        r@ == searxng_endpoint(base@),
{
    let mut end = base.len();
    assert(base@.subrange(0, end as int) == base@);
    while end > 0 && base[end - 1] == '/'
        invariant
            end <= base.len(),
            trim_end_slashes(base@.subrange(0, end as int)) == trim_end_slashes(base@),
        decreases end,
    {
        assert(base@.subrange(0, end as int).drop_last() == base@.subrange(0, end - 1));
        end = end - 1;
    }
    let head = slice_of(base, 0, end);
    let tail = chars_of("/search");
    string_of(&concat(&head, &tail))
}

// ---------------------------------------------------------------------------
// The search exchange
// ---------------------------------------------------------------------------

/// A request for the caller to perform.
pub enum Request {
    /// GET `https://duckduckgo.com/?q=<query>`, to let DuckDuckGo resolve a bang.
    BangLookup { query: String },
    /// POST the form `q=<query>&kl=us-en` to `https://html.duckduckgo.com/html/`.
    HtmlSearch { query: String },
    /// GET `<endpoint>?q=<query>&format=json` from a SearXNG instance.
    Searxng { endpoint: String, query: String },
}

#[verifier::ext_equal]
pub enum RequestView {
    BangLookup(Seq<char>),
    HtmlSearch(Seq<char>),
    Searxng(Seq<char>, Seq<char>),
}

impl View for Request {
    type V = RequestView;

    open spec fn view(&self) -> RequestView {
        match self {
            Request::BangLookup { query } => RequestView::BangLookup(query@),
            Request::HtmlSearch { query } => RequestView::HtmlSearch(query@),
            Request::Searxng { endpoint, query } => RequestView::Searxng(endpoint@, query@),
        }
    }
}

/// The query that a request carries.
pub open spec fn request_query(r: RequestView) -> Seq<char> {
    match r {
        RequestView::BangLookup(q) => q,
        RequestView::HtmlSearch(q) => q,
        RequestView::Searxng(_, q) => q,
    }
}

/// A request in flight, with the number of results wanted.
pub struct Pending {
    pub request: Request,
    pub num: usize,
}

/// What the caller got back for a request: a page's body, or the entries of a
/// SearXNG JSON answer.
pub enum Reply {
    Page(String),
    Entries(Vec<SearxEntry>),
}

#[verifier::ext_equal]
pub enum ReplyView {
    Page(Seq<char>),
    Entries(Seq<(Seq<char>, Seq<char>, Option<Seq<char>>)>),
}

impl View for Reply {
    type V = ReplyView;

    open spec fn view(&self) -> ReplyView {
        match self {
            Reply::Page(b) => ReplyView::Page(b@),
            Reply::Entries(es) => ReplyView::Entries(entries_of(es@)),
        }
    }
}

/// DuckDuckGo requests are answered with pages, SearXNG requests with entries.
pub open spec fn reply_fits(r: RequestView, reply: ReplyView) -> bool {
    match r {
        RequestView::Searxng(_, _) => reply is Entries,
        _ => reply is Page,
    }
}

pub enum Outcome {
    /// A navigational bang resolved to a destination URL.
    Destination(String),
    /// Ranked search results.
    Results(Vec<SearchResult>),
}

#[verifier::ext_equal]
pub enum OutcomeView {
    Destination(Seq<char>),
    Results(Seq<(Seq<char>, Seq<char>, Seq<char>)>),
}

impl View for Outcome {
    type V = OutcomeView;

    open spec fn view(&self) -> OutcomeView {
        match self {
            Outcome::Destination(u) => OutcomeView::Destination(u@),
            Outcome::Results(rs) => OutcomeView::Results(hits_of(rs@)),
        }
    }
}

/// What to do next: perform a request, or stop with an outcome.
pub enum Step {
    Fetch(Pending),
    Finished(Outcome),
}

#[verifier::ext_equal]
pub enum StepView {
    Fetch(RequestView, nat),
    Finished(OutcomeView),
}

impl View for Step {
    type V = StepView;

    open spec fn view(&self) -> StepView {
        match self {
            Step::Fetch(p) => StepView::Fetch(p.request@, p.num as nat),
            Step::Finished(o) => StepView::Finished(o@),
        }
    }
}

pub enum SearchError {
    /// The engine is neither DuckDuckGo nor SearXNG.
    UnknownEngine(String),
    /// SearXNG was selected but no instance is configured.
    NoSearxngInstance,
}

#[verifier::ext_equal]
pub enum SearchErrorView {
    UnknownEngine(Seq<char>),
    NoSearxngInstance,
}

impl View for SearchError {
    type V = SearchErrorView;

    open spec fn view(&self) -> SearchErrorView {
        match self {
            SearchError::UnknownEngine(e) => SearchErrorView::UnknownEngine(e@),
            SearchError::NoSearxngInstance => SearchErrorView::NoSearxngInstance,
        }
    }
}

/// The message shown for an error.
pub open spec fn error_message(e: SearchErrorView) -> Seq<char> {
    match e {
        SearchErrorView::UnknownEngine(name) => "unknown engine '"@ + name
            + "' (expected duckduckgo or searxng)"@,
        SearchErrorView::NoSearxngInstance =>
            "searxng engine selected but no instance configured; set `searxng_url` in ~/.config/bang/config.toml or BANG_SEARXNG_URL"@,
    }
}

impl SearchError {
    pub fn message(&self) -> (m: String)
        ensures
            m@ == error_message(self@),
    {
        match self {
            SearchError::UnknownEngine(name) => {
                let a = chars_of("unknown engine '");
                let b = chars_of(name.as_str());
                let c = chars_of("' (expected duckduckgo or searxng)");
                string_of(&concat(&concat(&a, &b), &c))
            },
            SearchError::NoSearxngInstance => {
                "searxng engine selected but no instance configured; set `searxng_url` in ~/.config/bang/config.toml or BANG_SEARXNG_URL".to_owned()
            },
        }
    }
}

pub open spec fn run_view(r: Result<Step, SearchError>) -> Result<StepView, SearchErrorView> {
    match r {
        Ok(s) => Ok(s@),
        Err(e) => Err(e@),
    }
}

/// The first step of a search: SearXNG is asked directly; DuckDuckGo is first
/// asked to resolve a bang when the query has one, else searched directly.
pub open spec fn run_spec(
    engine: Seq<char>,
    query: Seq<char>,
    num: nat,
    searxng_url: Option<Seq<char>>,
) -> Result<StepView, SearchErrorView> {
    if engine == "searxng"@ {
        match searxng_base(searxng_url) {
            None => Err(SearchErrorView::NoSearxngInstance),
            Some(base) => Ok(
                StepView::Fetch(RequestView::Searxng(searxng_endpoint(base), query), num),
            ),
        }
    } else if engine == "duckduckgo"@ || engine == "ddg"@ {
        Ok(
            StepView::Fetch(
                if has_bang_spec(query) {
                    RequestView::BangLookup(query)
                } else {
                    RequestView::HtmlSearch(query)
                },
                num,
            ),
        )
    } else {
        Err(SearchErrorView::UnknownEngine(engine))
    }
}

/// What a reply leads to: a recognized bang gives its destination, an
/// unrecognized one a normal search; result pages and SearXNG answers give
/// their results.
pub open spec fn advance_spec(r: RequestView, num: nat, reply: ReplyView) -> StepView {
    match (r, reply) {
        (RequestView::BangLookup(q), ReplyView::Page(body)) => match redirect_target(body) {
            Some(d) => StepView::Finished(OutcomeView::Destination(d)),
            None => StepView::Fetch(RequestView::HtmlSearch(q), num),
        },
        (RequestView::HtmlSearch(_), ReplyView::Page(body)) => StepView::Finished(
            OutcomeView::Results(ddg_results_spec(body, num)),
        ),
        (RequestView::Searxng(_, _), ReplyView::Entries(es)) => StepView::Finished(
            OutcomeView::Results(searxng_hits(es, num)),
        ),
        _ => StepView::Finished(OutcomeView::Results(seq![])),
    }
}

/// Starts a search of `query` with `engine`, wanting `num` results.
pub fn run(engine: &str, query: &str, num: usize, config: &Config) -> (r: Result<Step, SearchError>)
    ensures
        run_view(r) == run_spec(engine@, query@, num as nat, config@.1),
{
    if str_is(engine, "searxng") {
        let base = match &config.searxng_url {
            Some(u) => nonblank_trimmed(u.as_str()),
            None => None,
        };
        match base {
            None => Err(SearchError::NoSearxngInstance),
            Some(b) => {
                let bv = chars_of(b.as_str());
                let endpoint = endpoint_of(&bv);
                Ok(
                    Step::Fetch(
                        Pending {
                            request: Request::Searxng { endpoint, query: query.to_owned() },
                            num,
                        },
                    ),
                )
            },
        }
    } else if str_is(engine, "duckduckgo") || str_is(engine, "ddg") {
        let request = if has_bang(query) {
            Request::BangLookup { query: query.to_owned() }
        } else {
            Request::HtmlSearch { query: query.to_owned() }
        };
        Ok(Step::Fetch(Pending { request, num }))
    } else {
        Err(SearchError::UnknownEngine(engine.to_owned()))
    }
}

/// Takes the reply to a pending request and says what comes next.
pub fn advance(pending: Pending, reply: Reply) -> (s: Step)
    requires
        reply_fits(pending.request@, reply@),
    ensures
        s@ == advance_spec(pending.request@, pending.num as nat, reply@),
{
    let num = pending.num;
    match pending.request {
        Request::BangLookup { query } => {
            let body = match reply {
                Reply::Page(b) => b,
                Reply::Entries(_) => String::new(),
            };
            match parse_bang_redirect(body.as_str()) {
                Some(d) => Step::Finished(Outcome::Destination(d)),
                None => Step::Fetch(Pending { request: Request::HtmlSearch { query }, num }),
            }
        },
        Request::HtmlSearch { query: _ } => {
            let body = match reply {
                Reply::Page(b) => b,
                Reply::Entries(_) => String::new(),
            };
            Step::Finished(Outcome::Results(parse_ddg_results(body.as_str(), num)))
        },
        Request::Searxng { endpoint: _, query: _ } => {
            let entries = match reply {
                Reply::Entries(es) => es,
                Reply::Page(_) => Vec::new(),
            };
            Step::Finished(Outcome::Results(searxng_results(&entries, num)))
        },
    }
}

// ---------------------------------------------------------------------------
// Command-line input
// ---------------------------------------------------------------------------

/// The words joined by single spaces.
pub open spec fn join_words(ws: Seq<Seq<char>>) -> Seq<char>
    decreases ws.len(),
{
    if ws.len() == 0 {
        seq![]
    } else if ws.len() == 1 {
        ws[0]
    } else {
        join_words(ws.drop_last()) + " "@ + ws.last()
    }
}

pub open spec fn strings_of(v: Seq<String>) -> Seq<Seq<char>> {
    v.map_values(|s: String| s@)
}

/// The query that the command-line words make: joined by spaces and
/// trimmed; `None` when nothing is left.
pub open spec fn query_spec(args: Seq<Seq<char>>) -> Option<Seq<char>> {
    trimmed_nonblank(join_words(args))
}

/// Builds the query from the command-line words.
pub fn query_from_args(args: &Vec<String>) -> (q: Option<String>)
    ensures
        opt_view(q) == query_spec(strings_of(args@)),
{
    proof {
        reveal_strlit(" ");
    }
    let space = chars_of(" ");
    let mut joined: Vec<char> = Vec::new();
    let mut i: usize = 0;
    while i < args.len()
        invariant
            i <= args.len(),
            space@ == " "@,
            joined@ == join_words(strings_of(args@).take(i as int)),
        decreases args.len() - i,
    {
        let w = chars_of(args[i].as_str());
        let ghost ws = strings_of(args@).take(i + 1);
        assert(ws.drop_last() == strings_of(args@).take(i as int));
        assert(ws.last() == args@[i as int]@);
        if i == 0 {
            joined = w;
        } else {
            joined = concat(&concat(&joined, &space), &w);
        }
        i = i + 1;
    }
    assert(strings_of(args@).take(args.len() as int) == strings_of(args@));
    let t = trim_chars(&joined);
    if t.len() > 0 {
        Some(string_of(&t))
    } else {
        None
    }
}

/// ASCII upper-case letters mapped to lower case.
pub open spec fn ascii_lower(s: Seq<char>) -> Seq<char> {
    s.map_values(|c: char| if 0x41 <= c as u32 <= 0x5a { (c as u32 + 32) as char } else { c })
}

/// The engine to use: the one chosen on the command line, else the
/// configured one, in ASCII lower case.
pub fn engine_name(chosen: Option<&str>, configured: &str) -> (r: String)
    ensures
        r@ == ascii_lower(
            match chosen {
                Some(c) => c@,
                None => configured@,
            },
        ),
{
    let src = match chosen {
        Some(c) => chars_of(c),
        None => chars_of(configured),
    };
    let mut out: Vec<char> = Vec::new();
    let mut i: usize = 0;
    while i < src.len()
        invariant
            i <= src.len(),
            out@ == ascii_lower(src@.take(i as int)),
        decreases src.len() - i,
    {
        let c = src[i];
        let n = c as u32;
        let l = if 0x41 <= n && n <= 0x5a {
            ((n as u8) + 32) as char
        } else {
            c
        };
        assert(l == (if 0x41 <= c as u32 <= 0x5a { (c as u32 + 32) as char } else { c }));
        out.push(l);
        assert(ascii_lower(src@.take(i + 1)) == ascii_lower(src@.take(i as int)).push(l));
        i = i + 1;
    }
    assert(src@.take(src.len() as int) == src@);
    string_of(&out)
}

// ---------------------------------------------------------------------------
// Laws
// ---------------------------------------------------------------------------

/// Queries pass through to the engine verbatim: every request of a search
/// carries the query exactly as it was given.
pub proof fn law_query_passes_verbatim(
    engine: Seq<char>,
    query: Seq<char>,
    num: nat,
    searxng_url: Option<Seq<char>>,
    reply: ReplyView,
)
    ensures
        run_spec(engine, query, num, searxng_url) matches Ok(StepView::Fetch(r, n)) ==> {
            &&& request_query(r) == query
            &&& n == num
            &&& advance_spec(r, n, reply) matches StepView::Fetch(r2, n2) ==> request_query(r2)
                == query && n2 == num
        },
{
}

/// Unknown bangs degrade to a normal search: a bang page that is not a
/// redirect leads to a plain search of the same query.
pub proof fn law_unknown_bang_degrades(query: Seq<char>, num: nat, body: Seq<char>)
    requires
        redirect_target(body) is None,
    ensures
        advance_spec(RequestView::BangLookup(query), num, ReplyView::Page(body))
            == StepView::Fetch(RequestView::HtmlSearch(query), num),
{
}

/// DuckDuckGo is asked to resolve a bang only when the query has one.
pub proof fn law_bang_lookup_only_for_bangs(
    engine: Seq<char>,
    query: Seq<char>,
    num: nat,
    searxng_url: Option<Seq<char>>,
)
    ensures
        run_spec(engine, query, num, searxng_url) matches Ok(
            StepView::Fetch(RequestView::BangLookup(_), _),
        ) ==> has_bang_spec(query),
        (engine == "duckduckgo"@ && !has_bang_spec(query)) ==> run_spec(
            engine,
            query,
            num,
            searxng_url,
        ) == Ok::<StepView, SearchErrorView>(
            StepView::Fetch(RequestView::HtmlSearch(query), num),
        ),
{
    reveal_strlit("duckduckgo");
    reveal_strlit("searxng");
    assert("duckduckgo"@.len() != "searxng"@.len());
}

/// How many more requests a search can make once `r` is pending.
pub open spec fn requests_left(r: RequestView) -> nat {
    match r {
        RequestView::BangLookup(_) => 2,
        _ => 1,
    }
}

/// A search ends: each reply either finishes it or leads to a request with
/// fewer requests left, so no search performs more than two requests.
pub proof fn law_search_terminates(r: RequestView, num: nat, reply: ReplyView)
    ensures
        advance_spec(r, num, reply) matches StepView::Fetch(r2, _) ==> requests_left(r2)
            < requests_left(r),
{
}

proof fn lemma_collect_hits(blocks: Seq<Seq<char>>, num: nat)
    ensures
        collect_hits(blocks, num).len() <= num,
        forall|k: int| #![trigger collect_hits(blocks, num)[k]]
            0 <= k < collect_hits(blocks, num).len() ==> {
                let u = collect_hits(blocks, num)[k].1;
                starts_with(u, "http"@) && !contains(u, "duckduckgo.com"@)
            },
    decreases blocks.len(),
{
    if blocks.len() > 0 && num > 0 {
        match block_hit(blocks[0]) {
            Some(h) => {
                lemma_collect_hits(blocks.drop_first(), (num - 1) as nat);
                let rest = collect_hits(blocks.drop_first(), (num - 1) as nat);
                assert forall|k: int| #![trigger collect_hits(blocks, num)[k]]
                    0 <= k < collect_hits(blocks, num).len() implies {
                    let u = collect_hits(blocks, num)[k].1;
                    starts_with(u, "http"@) && !contains(u, "duckduckgo.com"@)
                } by {
                    if k > 0 {
                        assert(collect_hits(blocks, num)[k] == rest[k - 1]);
                    }
                }
            },
            None => {
                lemma_collect_hits(blocks.drop_first(), num);
            },
        }
    }
}

/// A DuckDuckGo result page gives at most `num` results, each pointing at an
/// http(s) URL that is not DuckDuckGo's own.
pub proof fn law_ddg_results_are_external(body: Seq<char>, num: nat)
    ensures
        ddg_results_spec(body, num).len() <= num,
        forall|k: int| #![trigger ddg_results_spec(body, num)[k]]
            0 <= k < ddg_results_spec(body, num).len() ==> starts_with(
                ddg_results_spec(body, num)[k].1,
                "http"@,
            ) && !contains(ddg_results_spec(body, num)[k].1, "duckduckgo.com"@),
{
    lemma_collect_hits(split(body, "class=\"result__a\""@).drop_first(), num);
}

/// A SearXNG answer gives at most `num` results, none with a blank URL or a
/// blank title.
pub proof fn law_searxng_results_are_nonblank(
    es: Seq<(Seq<char>, Seq<char>, Option<Seq<char>>)>,
    num: nat,
)
    ensures
        searxng_hits(es, num).len() <= num,
        forall|k: int| #![trigger searxng_hits(es, num)[k]]
            0 <= k < searxng_hits(es, num).len() ==> trim(searxng_hits(es, num)[k].1).len() > 0
                && trim(searxng_hits(es, num)[k].0).len() > 0,
    decreases es.len(),
{
    if es.len() > 0 && num > 0 {
        if trim(es[0].1).len() == 0 {
            law_searxng_results_are_nonblank(es.drop_first(), num);
        } else {
            law_searxng_results_are_nonblank(es.drop_first(), (num - 1) as nat);
            let rest = searxng_hits(es.drop_first(), (num - 1) as nat);
            assert forall|k: int| #![trigger searxng_hits(es, num)[k]]
                0 <= k < searxng_hits(es, num).len() implies trim(searxng_hits(es, num)[k].1).len()
                > 0 && trim(searxng_hits(es, num)[k].0).len() > 0 by {
                if k > 0 {
                    assert(searxng_hits(es, num)[k] == rest[k - 1]);
                }
            }
        }
    }
}

/// Stripped text neither starts nor ends with whitespace.
pub proof fn law_stripped_text_is_trimmed(s: Seq<char>)
    ensures
        strip_tags_spec(s).len() > 0 ==> !is_ws(strip_tags_spec(s)[0]) && !is_ws(
            strip_tags_spec(s).last(),
        ),
{
    lemma_trim(unescape(untag(s, false)));
}

/// DuckDuckGo, under either of its names, is first asked to resolve a bang
/// whenever the query has one, and is searched directly otherwise; both names
/// start the same search.
pub proof fn law_duckduckgo_resolves_bangs(
    engine: Seq<char>,
    query: Seq<char>,
    num: nat,
    searxng_url: Option<Seq<char>>,
)
    requires
        engine == "duckduckgo"@ || engine == "ddg"@,
    ensures
        has_bang_spec(query) ==> run_spec(engine, query, num, searxng_url) == Ok::<
            StepView,
            SearchErrorView,
        >(StepView::Fetch(RequestView::BangLookup(query), num)),
        !has_bang_spec(query) ==> run_spec(engine, query, num, searxng_url) == Ok::<
            StepView,
            SearchErrorView,
        >(StepView::Fetch(RequestView::HtmlSearch(query), num)),
        run_spec("duckduckgo"@, query, num, searxng_url) == run_spec(
            "ddg"@,
            query,
            num,
            searxng_url,
        ),
{
    reveal_strlit("duckduckgo");
    reveal_strlit("ddg");
    reveal_strlit("searxng");
    assert("duckduckgo"@.len() != "searxng"@.len());
    assert("ddg"@.len() != "searxng"@.len());
}

/// A result block is kept exactly when its link, once unwrapped, starts with
/// `http` and does not mention duckduckgo.com; the result then points at that
/// unwrapped link. A block without an `href` gives nothing.
pub proof fn law_block_keeps_web_links(block: Seq<char>)
    ensures
        attr_after_spec(block, "href=\""@) is None ==> block_hit(block) is None,
        attr_after_spec(block, "href=\""@) matches Some(h) ==> {
            &&& (block_hit(block) is Some <==> (starts_with(uddg_target(h), "http"@) && !contains(
                uddg_target(h),
                "duckduckgo.com"@,
            )))
            &&& (block_hit(block) matches Some(r) ==> r.1 == uddg_target(h))
        },
{
}

/// The first block of a result page is the piece after the first marker; if
/// it is kept, it is the first result (when any result is wanted).
pub proof fn law_first_block_first_result(body: Seq<char>, num: nat)
    requires
        num > 0,
        split(body, "class=\"result__a\""@).len() > 1,
    ensures
        block_hit(split(body, "class=\"result__a\""@)[1]) matches Some(h) ==> ddg_results_spec(
            body,
            num,
        ).len() > 0 && ddg_results_spec(body, num)[0] == h,
{
    let blocks = split(body, "class=\"result__a\""@).drop_first();
    assert(blocks[0] == split(body, "class=\"result__a\""@)[1]);
}

proof fn lemma_before_any(s: Seq<char>, stops: Seq<char>)
    ensures
        before_any(s, stops).len() <= s.len(),
        before_any(s, stops) == s.take(before_any(s, stops).len() as int),
        forall|k: int|
            0 <= k < before_any(s, stops).len() ==> !stops.contains(#[trigger] before_any(s, stops)[k]),
        before_any(s, stops).len() == s.len() || stops.contains(s[before_any(s, stops).len() as int]),
    decreases s.len(),
{
    if s.len() > 0 && !stops.contains(s[0]) {
        let r = before_any(s.drop_first(), stops);
        lemma_before_any(s.drop_first(), stops);
        assert(before_any(s, stops) == seq![s[0]] + r);
        assert(s.take(r.len() + 1int) == seq![s[0]] + s.drop_first().take(r.len() as int));
        assert forall|k: int| 0 <= k < before_any(s, stops).len() implies !stops.contains(
            #[trigger] before_any(s, stops)[k],
        ) by {
            if k > 0 {
                assert(before_any(s, stops)[k] == r[k - 1]);
            }
        }
        if r.len() < s.drop_first().len() {
            assert(s[r.len() + 1int] == s.drop_first()[r.len() as int]);
        }
    } else if s.len() > 0 {
        assert(s.take(0) == Seq::<char>::empty());
    }
}

/// The encoded destination is the text right after the first `/l/?uddg=`, up
/// to (not including) the first `&`, `'`, `"` or `<`, or the end of the page;
/// a page without the marker has none.
pub proof fn law_redirect_param_shape(body: Seq<char>)
    ensures
        redirect_param(body) is None <==> !contains(body, "/l/?uddg="@),
        redirect_param(body) matches Some(p) ==> exists|i: int|
            {
                let start = i + "/l/?uddg="@.len();
                &&& #[trigger] crate::text::first_at(body, "/l/?uddg="@, i)
                &&& start + p.len() <= body.len()
                &&& p == body.subrange(start, start + p.len())
                &&& forall|k: int|
                    0 <= k < p.len() ==> !seq!['&', '\'', '"', '<'].contains(#[trigger] p[k])
                &&& start + p.len() == body.len() || seq!['&', '\'', '"', '<'].contains(
                    body[start + p.len()],
                )
            },
{
    crate::text::lemma_find_contains(body, "/l/?uddg="@);
    lemma_find_some(body, "/l/?uddg="@);
    if let Some(i) = find(body, "/l/?uddg="@) {
        let start = i + "/l/?uddg="@.len();
        let rest = body.skip(start);
        let stops = seq!['&', '\'', '"', '<'];
        lemma_before_any(rest, stops);
        let p = before_any(rest, stops);
        assert(p == body.subrange(start, start + p.len()));
        if start + p.len() < body.len() {
            assert(body[start + p.len()] == rest[p.len() as int]);
        }
    }
}

/// The destination is the parameter percent-decoded exactly once, taken only
/// when it is an http(s) URL; nothing comes out of a page without the marker
/// or whose parameter does not decode.
pub proof fn law_destination_decoded_once(body: Seq<char>)
    ensures
        redirect_param(body) is None ==> redirect_target(body) is None,
        redirect_param(body) matches Some(p) ==> {
            &&& percent_decoded(p) is None ==> redirect_target(body) is None
            &&& percent_decoded(p) matches Some(d) ==> redirect_target(body) == (if starts_with(
                d,
                "http://"@,
            ) || starts_with(d, "https://"@) {
                Some(d)
            } else {
                None
            })
        },
{
}

/// The command-line words are joined by single spaces: one word is itself,
/// and each further word adds a space and the word.
pub proof fn law_words_joined_by_spaces(ws: Seq<Seq<char>>, a: Seq<char>, w: Seq<char>)
    ensures
        join_words(seq![]) == Seq::<char>::empty(),
        join_words(seq![w]) == w,
        ws.len() > 0 ==> join_words(ws.push(w)) == join_words(ws) + " "@ + w,
        query_spec(seq![a, w]) == trimmed_nonblank(a + " "@ + w),
{
    assert(seq![w].len() == 1);
    if ws.len() > 0 {
        assert(ws.push(w).drop_last() == ws);
        assert(ws.push(w).last() == w);
    }
    let two = seq![a, w];
    assert(two.drop_last() == seq![a]);
    assert(two.last() == w);
    assert(join_words(seq![a]) == a);
    assert(join_words(two) == a + " "@ + w);
}

/// The engine name is compared in ASCII lower case: every character is
/// case-folded, nothing else changes.
pub proof fn law_engine_name_lower_case(s: Seq<char>)
    ensures
        ascii_lower(s).len() == s.len(),
        forall|i: int| #![trigger ascii_lower(s)[i]]
            0 <= i < s.len() ==> ascii_lower(s)[i] as u32 == crate::text::fold_case(s[i]),
{
    assert forall|i: int| #![trigger ascii_lower(s)[i]] 0 <= i < s.len() implies ascii_lower(
        s,
    )[i] as u32 == crate::text::fold_case(s[i]) by {
        let c = s[i];
        if 0x41 <= c as u32 <= 0x5a {
            assert(((c as u32 + 32) as char) as u32 == c as u32 + 32);
        }
    }
}

/// SearXNG is asked directly, at the configured instance's `/search`
/// endpoint, and only when an instance is configured; any engine other than
/// SearXNG and DuckDuckGo (under its two names) is refused by name.
pub proof fn law_engine_selection(
    engine: Seq<char>,
    query: Seq<char>,
    num: nat,
    searxng_url: Option<Seq<char>>,
)
    ensures
        engine == "searxng"@ ==> (match searxng_url {
            Some(u) => trim(u).len() > 0,
            None => false,
        } <==> run_spec(engine, query, num, searxng_url) is Ok),
        engine == "searxng"@ ==> (run_spec(engine, query, num, searxng_url) is Err
            ==> run_spec(engine, query, num, searxng_url) == Err::<StepView, SearchErrorView>(
            SearchErrorView::NoSearxngInstance,
        )),
        searxng_url matches Some(u) ==> (engine == "searxng"@ && trim(u).len() > 0 ==> run_spec(
            engine,
            query,
            num,
            searxng_url,
        ) == Ok::<StepView, SearchErrorView>(
            StepView::Fetch(RequestView::Searxng(searxng_endpoint(trim(u)), query), num),
        )),
        engine != "searxng"@ && engine != "duckduckgo"@ && engine != "ddg"@ ==> run_spec(
            engine,
            query,
            num,
            searxng_url,
        ) == Err::<StepView, SearchErrorView>(SearchErrorView::UnknownEngine(engine)),
{
}

/// The endpoint is the instance address without its trailing slashes,
/// followed by `/search`.
pub proof fn law_endpoint_drops_trailing_slashes(s: Seq<char>)
    ensures
        trim_end_slashes(s).len() <= s.len(),
        trim_end_slashes(s) == s.take(trim_end_slashes(s).len() as int),
        forall|k: int| trim_end_slashes(s).len() <= k < s.len() ==> #[trigger] s[k] == '/',
        trim_end_slashes(s).len() > 0 ==> trim_end_slashes(s).last() != '/',
        searxng_endpoint(s) == trim_end_slashes(s) + "/search"@,
    decreases s.len(),
{
    if s.len() > 0 && s.last() == '/' {
        law_endpoint_drops_trailing_slashes(s.drop_last());
        let t = trim_end_slashes(s.drop_last());
        assert(s.drop_last().take(t.len() as int) == s.take(t.len() as int));
        assert forall|k: int| t.len() <= k < s.len() implies #[trigger] s[k] == '/' by {
            if k < s.len() - 1 {
                assert(s[k] == s.drop_last()[k]);
            }
        }
    } else {
        assert(s.take(s.len() as int) == s);
    }
}

/// An attribute value is the text right after the first `marker`, up to the
/// next `"`, which it does not contain.
pub proof fn law_attr_after_shape(block: Seq<char>, marker: Seq<char>)
    ensures
        !contains(block, marker) ==> attr_after_spec(block, marker) is None,
        attr_after_spec(block, marker) matches Some(v) ==> exists|i: int|
            {
                let start = i + marker.len();
                &&& #[trigger] crate::text::first_at(block, marker, i)
                &&& start + v.len() < block.len()
                &&& v == block.subrange(start, start + v.len())
                &&& block[start + v.len()] == '"'
                &&& forall|k: int| 0 <= k < v.len() ==> #[trigger] v[k] != '"'
            },
{
    crate::text::lemma_find_contains(block, marker);
    lemma_find_some(block, marker);
    if let Some(i) = find(block, marker) {
        let start = i + marker.len();
        let rest = block.skip(start);
        lemma_find_some(rest, seq!['"']);
        if let Some(j) = find(rest, seq!['"']) {
            let v = block.subrange(start, start + j);
            assert(rest.subrange(j, j + 1) == seq!['"']);
            assert(rest.subrange(j, j + 1)[0] == block[start + j]);
            assert forall|k: int| 0 <= k < v.len() implies #[trigger] v[k] != '"' by {
                assert(!crate::text::occurs_at(rest, seq!['"'], k));
                if v[k] == '"' {
                    assert(rest.subrange(k, k + 1) =~= seq!['"']);
                }
            }
            assert(crate::text::first_at(block, marker, i));
        }
    }
}

/// The `uddg` parameter is the text right after the first `uddg=`, up to the
/// next `&` (which it does not contain) or the end of the link.
pub proof fn law_uddg_param_shape(url: Seq<char>)
    ensures
        !contains(url, "uddg="@) ==> uddg_param(url) is None && uddg_target(url) == url,
        uddg_param(url) matches Some(p) ==> exists|i: int|
            {
                let start = i + "uddg="@.len();
                &&& #[trigger] crate::text::first_at(url, "uddg="@, i)
                &&& start + p.len() <= url.len()
                &&& p == url.subrange(start, start + p.len())
                &&& start + p.len() == url.len() || url[start + p.len()] == '&'
                &&& !contains(p, "&"@)
            },
{
    reveal_strlit("&");
    crate::text::lemma_find_contains(url, "uddg="@);
    lemma_find_some(url, "uddg="@);
    if let Some(i) = find(url, "uddg="@) {
        let start = i + "uddg="@.len();
        let rest = url.skip(start);
        lemma_find_some(rest, "&"@);
        crate::text::lemma_find_contains(rest, "&"@);
        match find(rest, "&"@) {
            Some(j) => {
                let p = url.subrange(start, start + j);
                assert(rest.subrange(j, j + 1) == "&"@);
                assert(rest.subrange(j, j + 1)[0] == url[start + j]);
                assert(!contains(p, "&"@)) by {
                    if contains(p, "&"@) {
                        let k = choose|k: int| crate::text::occurs_at(p, "&"@, k);
                        assert(p.subrange(k, k + 1) == rest.subrange(k, k + 1));
                        assert(crate::text::occurs_at(rest, "&"@, k));
                    }
                }
            },
            None => {
                let p = url.subrange(start, url.len() as int);
                assert(p == rest);
            },
        }
        assert(crate::text::first_at(url, "uddg="@, i));
    }
}

/// One SearXNG entry gives one result when its URL is not blank: its URL, its
/// title (or the URL when the title is blank) and its content (or nothing).
pub proof fn law_searxng_entry(
    title: Seq<char>,
    url: Seq<char>,
    content: Option<Seq<char>>,
    num: nat,
)
    requires
        num > 0,
    ensures
        trim(url).len() == 0 ==> searxng_hits(seq![(title, url, content)], num).len() == 0,
        trim(url).len() > 0 ==> searxng_hits(seq![(title, url, content)], num) == seq![
            (
                if trim(title).len() > 0 {
                    title
                } else {
                    url
                },
                url,
                match content {
                    Some(c) => c,
                    None => Seq::<char>::empty(),
                },
            ),
        ],
{
    let es = seq![(title, url, content)];
    let none = Seq::<(Seq<char>, Seq<char>, Option<Seq<char>>)>::empty();
    assert(es[0] == (title, url, content));
    assert(es.drop_first() == none);
    assert(searxng_hits(none, num) == Seq::<(Seq<char>, Seq<char>, Seq<char>)>::empty());
    assert(searxng_hits(none, (num - 1) as nat) == Seq::<
        (Seq<char>, Seq<char>, Seq<char>),
    >::empty());
    if trim(url).len() > 0 {
        assert(searxng_hits(es, num) == seq![entry_hit(es[0])] + searxng_hits(
            none,
            (num - 1) as nat,
        ));
        assert(seq![entry_hit(es[0])] + Seq::<(Seq<char>, Seq<char>, Seq<char>)>::empty()
            == seq![entry_hit(es[0])]);
    } else {
        assert(searxng_hits(es, num) == searxng_hits(none, num));
    }
}

proof fn lemma_words_of_word(w: Seq<char>, cur: Seq<char>)
    requires
        forall|k: int| 0 <= k < w.len() ==> !is_ws(#[trigger] w[k]),
    ensures
        words_from(w, cur) == crate::text::words_from(Seq::<char>::empty(), cur + w),
    decreases w.len(),
{
    if w.len() > 0 {
        lemma_words_of_word(w.drop_first(), cur.push(w[0]));
        assert(cur.push(w[0]) + w.drop_first() == cur + w);
    } else {
        assert(cur + w == cur);
    }
}

proof fn lemma_words_concat(a: Seq<char>, b: Seq<char>, cur: Seq<char>)
    requires
        a.len() > 0,
        is_ws(a.last()),
    ensures
        words_from(a + b, cur) == words_from(a, cur) + words(b),
    decreases a.len(),
{
    let e = Seq::<char>::empty();
    let x = a[0];
    assert((a + b)[0] == x);
    assert((a + b).drop_first() == a.drop_first() + b);
    if a.len() == 1 {
        assert(a.drop_first() == e);
        assert(e + b == b);
        assert(words_from(e, e) == Seq::<Seq<char>>::empty());
        let f = if cur.len() > 0 {
            seq![cur]
        } else {
            Seq::<Seq<char>>::empty()
        };
        assert(words_from(a, cur) == f + words_from(e, e));
        assert(f + Seq::<Seq<char>>::empty() == f);
    } else {
        assert(a.drop_first().last() == a.last());
        if is_ws(x) {
            lemma_words_concat(a.drop_first(), b, e);
            let f = if cur.len() > 0 {
                seq![cur]
            } else {
                Seq::<Seq<char>>::empty()
            };
            assert(f + (words_from(a.drop_first(), e) + words(b)) == (f + words_from(
                a.drop_first(),
                e,
            )) + words(b));
        } else {
            lemma_words_concat(a.drop_first(), b, cur.push(x));
        }
    }
}

/// Bang detection looks exactly at the first and the last word: a word made
/// of `!` and one or more ASCII letters or digits, standing first or last in
/// the query (separated by whitespace from the rest), makes the query a bang
/// query.
pub proof fn law_bang_at_either_end(w: Seq<char>, c: Seq<char>, rest: Seq<char>)
    requires
        w.len() >= 2,
        w[0] == '!',
        forall|k: int| 1 <= k < w.len() ==> is_alnum(#[trigger] w[k]),
        c.len() > 0,
        forall|k: int| 0 <= k < c.len() ==> is_ws(#[trigger] c[k]),
    ensures
        has_bang_spec(w),
        has_bang_spec(w + c + rest),
        has_bang_spec(rest + c + w),
{
    let e = Seq::<char>::empty();
    assert forall|k: int| 0 <= k < w.len() implies !is_ws(#[trigger] w[k]) by {
        if k == 0 {
            assert(w[0] == '!');
        } else {
            assert(is_alnum(w[k]));
        }
    }
    assert(is_bang(w));
    // a word alone
    lemma_words_of_word(w, e);
    assert(e + w == w);
    assert(words(w) == seq![w]);
    // first word
    assert((c + rest)[0] == c[0]);
    lemma_words_of_word_then(w, c + rest);
    assert(w + c + rest == w + (c + rest));
    // last word
    let front = rest + c;
    assert(front.last() == c.last());
    lemma_words_concat(front, w, e);
    assert(rest + c + w == front + w);
    let ws = words(rest + c + w);
    assert(ws == words_from(front, e) + seq![w]);
    assert(ws.last() == w);
}

pub(crate) proof fn lemma_words_of_word_then(w: Seq<char>, t: Seq<char>)
    requires
        w.len() > 0,
        forall|k: int| 0 <= k < w.len() ==> !is_ws(#[trigger] w[k]),
        t.len() > 0,
        is_ws(t[0]),
    ensures
        words(w + t).len() > 0,
        words(w + t)[0] == w,
    decreases w.len(),
{
    lemma_words_from_prefix(w, t, Seq::<char>::empty());
    assert(Seq::<char>::empty() + w == w);
}

proof fn lemma_words_from_prefix(w: Seq<char>, t: Seq<char>, cur: Seq<char>)
    requires
        forall|k: int| 0 <= k < w.len() ==> !is_ws(#[trigger] w[k]),
        cur.len() + w.len() > 0,
        t.len() > 0,
        is_ws(t[0]),
    ensures
        words_from(w + t, cur).len() > 0,
        words_from(w + t, cur)[0] == cur + w,
    decreases w.len(),
{
    if w.len() > 0 {
        assert((w + t)[0] == w[0]);
        assert((w + t).drop_first() == w.drop_first() + t);
        lemma_words_from_prefix(w.drop_first(), t, cur.push(w[0]));
        assert(cur.push(w[0]) + w.drop_first() == cur + w);
    } else {
        assert(w + t == t);
        assert(cur + w == cur);
    }
}

proof fn lemma_untag_plain(t: Seq<char>, in_tag: bool)
    requires
        forall|k: int| 0 <= k < t.len() ==> #[trigger] t[k] != '<' && t[k] != '>',
    ensures
        untag(t, in_tag) == (if in_tag {
            Seq::<char>::empty()
        } else {
            t
        }),
    decreases t.len(),
{
    if t.len() > 0 {
        lemma_untag_plain(t.drop_first(), in_tag);
        if !in_tag {
            assert(t == seq![t[0]] + t.drop_first());
        }
    }
}

proof fn lemma_no_amp_unchanged(t: Seq<char>, p: Seq<char>, r: Seq<char>)
    requires
        forall|k: int| 0 <= k < t.len() ==> #[trigger] t[k] != '&',
        p.len() > 0,
        p[0] == '&',
    ensures
        replace(t, p, r) == t,
{
    assert(!contains(t, p)) by {
        if contains(t, p) {
            let k = choose|k: int| crate::text::occurs_at(t, p, k);
            assert(t.subrange(k, k + p.len())[0] == t[k]);
        }
    }
    crate::text::law_replace_only_occurrences(t, p, r);
}

/// Text without markup or entities is only trimmed; a tag in front of it is
/// dropped whole.
pub proof fn law_plain_text_is_only_trimmed(tag: Seq<char>, t: Seq<char>)
    requires
        forall|k: int| 0 <= k < t.len() ==> #[trigger] t[k] != '<' && t[k] != '>' && t[k] != '&',
        forall|k: int| 0 <= k < tag.len() ==> #[trigger] tag[k] != '>',
    ensures
        strip_tags_spec(t) == trim(t),
        strip_tags_spec(seq!['<'] + tag + seq!['>'] + t) == trim(t),
{
    reveal_strlit("&amp;");
    reveal_strlit("&lt;");
    reveal_strlit("&gt;");
    reveal_strlit("&quot;");
    reveal_strlit("&#x27;");
    reveal_strlit("&#39;");
    reveal_strlit("&nbsp;");
    lemma_untag_plain(t, false);
    lemma_no_amp_unchanged(t, "&amp;"@, "&"@);
    lemma_no_amp_unchanged(t, "&lt;"@, "<"@);
    lemma_no_amp_unchanged(t, "&gt;"@, ">"@);
    lemma_no_amp_unchanged(t, "&quot;"@, "\""@);
    lemma_no_amp_unchanged(t, "&#x27;"@, "'"@);
    lemma_no_amp_unchanged(t, "&#39;"@, "'"@);
    lemma_no_amp_unchanged(t, "&nbsp;"@, " "@);
    lemma_untag_tag(tag, t);
}

proof fn lemma_untag_tag(tag: Seq<char>, t: Seq<char>)
    requires
        forall|k: int| 0 <= k < t.len() ==> #[trigger] t[k] != '<' && t[k] != '>' && t[k] != '&',
        forall|k: int| 0 <= k < tag.len() ==> #[trigger] tag[k] != '>',
    ensures
        untag(seq!['<'] + tag + seq!['>'] + t, false) == t,
{
    let s = seq!['<'] + tag + seq!['>'] + t;
    assert(s[0] == '<');
    assert(s.drop_first() == tag + seq!['>'] + t);
    lemma_untag_in_tag(tag, t);
}

proof fn lemma_untag_in_tag(tag: Seq<char>, t: Seq<char>)
    requires
        forall|k: int| 0 <= k < t.len() ==> #[trigger] t[k] != '<' && t[k] != '>' && t[k] != '&',
        forall|k: int| 0 <= k < tag.len() ==> #[trigger] tag[k] != '>',
    ensures
        untag(tag + seq!['>'] + t, true) == t,
    decreases tag.len(),
{
    let s = tag + seq!['>'] + t;
    if tag.len() > 0 {
        assert(s[0] == tag[0]);
        assert(s.drop_first() == tag.drop_first() + seq!['>'] + t);
        lemma_untag_in_tag(tag.drop_first(), t);
    } else {
        assert(s[0] == '>');
        assert(s.drop_first() == t);
        lemma_untag_plain(t, false);
    }
}

/// A query of a single word is a bang query exactly when the word is `!`
/// followed by one or more ASCII letters or digits.
pub proof fn law_single_word_bang(w: Seq<char>)
    requires
        w.len() > 0,
        forall|k: int| 0 <= k < w.len() ==> !is_ws(#[trigger] w[k]),
    ensures
        has_bang_spec(w) <==> (w.len() >= 2 && w[0] == '!' && forall|k: int|
            1 <= k < w.len() ==> is_alnum(#[trigger] w[k])),
{
    let e = Seq::<char>::empty();
    lemma_words_of_word(w, e);
    assert(e + w == w);
    assert(words(w) == seq![w]);
}

/// When every entry has a URL, the answer gives `num` results, or all of
/// them when there are fewer.
pub proof fn law_searxng_takes_num(es: Seq<(Seq<char>, Seq<char>, Option<Seq<char>>)>, num: nat)
    requires
        forall|k: int| 0 <= k < es.len() ==> trim(#[trigger] es[k].1).len() > 0,
    ensures
        searxng_hits(es, num).len() == if es.len() < num {
            es.len()
        } else {
            num
        },
    decreases es.len(),
{
    if es.len() > 0 && num > 0 {
        assert(trim(es[0].1).len() > 0);
        assert forall|k: int| 0 <= k < es.drop_first().len() implies trim(
            #[trigger] es.drop_first()[k].1,
        ).len() > 0 by {
            assert(es.drop_first()[k] == es[k + 1]);
        }
        law_searxng_takes_num(es.drop_first(), (num - 1) as nat);
    }
}

/// The replies are read by the page and answer parsers: a result page gives
/// exactly what `parse_ddg_results` extracts, a SearXNG answer what
/// `searxng_results` selects, and a bang page its redirect destination, all
/// with the number of results asked for when the search started.
pub proof fn law_replies_are_parsed(q: Seq<char>, e: Seq<char>, num: nat, body: Seq<char>, es: Seq<
    (Seq<char>, Seq<char>, Option<Seq<char>>),
>)
    ensures
        advance_spec(RequestView::HtmlSearch(q), num, ReplyView::Page(body)) == StepView::Finished(
            OutcomeView::Results(ddg_results_spec(body, num)),
        ),
        advance_spec(RequestView::Searxng(e, q), num, ReplyView::Entries(es))
            == StepView::Finished(OutcomeView::Results(searxng_hits(es, num))),
        redirect_target(body) matches Some(d) ==> advance_spec(
            RequestView::BangLookup(q),
            num,
            ReplyView::Page(body),
        ) == StepView::Finished(OutcomeView::Destination(d)),
{
}

} // verus!
