//! The headless chat agent's replies: the keyword fallback over wiki pages
//! when no language model answers, and the reading of a model's HTTP
//! reply. Talking to the model and reading the pages is the caller's part.
use vstd::prelude::*;

use crate::http::strings_view;
use crate::search::{heading_line_from, word_tokens, word_tokens_of};
use crate::tasks::opt_string_view;
use crate::text::{
    ascii_lower, chars_of, contains_seq, decimal, find_chars_from, lex_lt, line_at, lowercase, starts_with, string_of,
    trim,
};

verus! {

/// `str::trim_start_matches(p)` for a non-empty string pattern `p`.
pub open spec fn trim_start_str(s: Seq<char>, p: Seq<char>) -> Seq<char>
    decreases s.len(),
{
    if p.len() > 0 && starts_with(s, p) {
        trim_start_str(s.subrange(p.len() as int, s.len() as int), p)
    } else {
        s
    }
}

pub fn trim_start_matches_str(s: &[char], p: &[char]) -> (r: Vec<char>)
    ensures
        r@ == trim_start_str(s@, p@),
{
    let n = s.len();
    let mut a: usize = 0;
    assert(s@.subrange(0, n as int) =~= s@);
    while p.len() > 0 && crate::text::has_prefix(&s[a..n], p)
        invariant
            a <= n == s@.len(),
            trim_start_str(s@, p@) == trim_start_str(s@.subrange(a as int, n as int), p@),
        decreases n - a,
    {
        assert(s@.subrange(a as int, n as int).subrange(p@.len() as int, n - a) =~= s@.subrange(
            a + p@.len(),
            n as int,
        ));
        a = a + p.len();
    }
    crate::text::slice_chars(s, a, n)
}

/// A wiki page, as read from disk, for the keyword fallback.
pub struct ChatPage {
    /// The page's path relative to the project root.
    pub rel: String,
    /// The file name without its extension, where it has one.
    pub stem: Option<String>,
    pub content: String,
}

pub struct ChatPageView {
    pub rel: Seq<char>,
    pub stem: Option<Seq<char>>,
    pub content: Seq<char>,
}

impl View for ChatPage {
    type V = ChatPageView;

    open spec fn view(&self) -> ChatPageView {
        ChatPageView { rel: self.rel@, stem: crate::tasks::opt_string_view(self.stem), content: self.content@ }
    }
}

pub open spec fn chat_pages_view(v: Seq<ChatPage>) -> Seq<ChatPageView> {
    v.map_values(|p: ChatPage| p@)
}

/// The words of a chat message the fallback looks for: lower-case, of at
/// least three bytes.
pub open spec fn chat_tokens(message: Seq<char>) -> Seq<Seq<char>> {
    word_tokens(message, 0, 3)
}

/// How many of the tokens occur in `lower`.
pub open spec fn tokens_found(lower: Seq<char>, tokens: Seq<Seq<char>>) -> nat
    decreases tokens.len(),
{
    if tokens.len() == 0 {
        0
    } else {
        tokens_found(lower, tokens.drop_last()) + if tokens.last().len() > 0 && contains_seq(lower, tokens.last()) {
            1nat
        } else {
            0nat
        }
    }
}

/// A page's title for the fallback: its first `# ` line without its `# `
/// markers, trimmed; else the file stem, else `page`.
pub open spec fn chat_title(p: ChatPageView) -> Seq<char> {
    match heading_line_from(p.content, 0) {
        Some(l) => trim(trim_start_str(l, "# "@)),
        None => match p.stem {
            Some(s) => s,
            None => "page"@,
        },
    }
}

/// A page that matched: its path, and its title with the number of
/// tokens found.
pub struct ChatHit {
    pub rel: Seq<char>,
    pub label: Seq<char>,
}

/// The hit a page makes where any token occurs in it.
pub open spec fn chat_hit(p: ChatPageView, tokens: Seq<Seq<char>>) -> Option<ChatHit> {
    let score = tokens_found(lowercase(p.content), tokens);
    if score > 0 {
        Some(ChatHit { rel: p.rel, label: chat_title(p) + " ("@ + decimal(score as int) + " matches)"@ })
    } else {
        None
    }
}

pub open spec fn chat_hits(pages: Seq<ChatPageView>, tokens: Seq<Seq<char>>) -> Seq<ChatHit>
    decreases pages.len(),
{
    if pages.len() == 0 {
        Seq::empty()
    } else {
        let r = chat_hits(pages.drop_last(), tokens);
        match chat_hit(pages.last(), tokens) {
            Some(h) => r.push(h),
            None => r,
        }
    }
}

/// The position where `h` goes in a list sorted by label, largest first:
/// after every hit whose label is not below its own.
pub open spec fn desc_pos(s: Seq<ChatHit>, h: ChatHit) -> int
    decreases s.len(),
{
    if s.len() == 0 || lex_lt(s[0].label, h.label) {
        0
    } else {
        1 + desc_pos(s.drop_first(), h)
    }
}

/// The hits sorted by label, largest first, hits with equal labels in
/// their first order (the stable sort of `sort_by(|a, b| b.cmp(a))`).
pub open spec fn sort_desc(s: Seq<ChatHit>) -> Seq<ChatHit>
    decreases s.len(),
{
    if s.len() == 0 {
        Seq::empty()
    } else {
        let r = sort_desc(s.drop_last());
        r.insert(desc_pos(r, s.last()), s.last())
    }
}

pub open spec fn sorted_desc(s: Seq<ChatHit>) -> bool {
    forall|i: int, j: int| 0 <= i < j < s.len() ==> !lex_lt(#[trigger] s[i].label, #[trigger] s[j].label)
}

pub proof fn lemma_desc_pos(s: Seq<ChatHit>, h: ChatHit)
    ensures
        0 <= desc_pos(s, h) <= s.len(),
        forall|i: int| 0 <= i < desc_pos(s, h) ==> !lex_lt(#[trigger] s[i].label, h.label),
        desc_pos(s, h) < s.len() ==> lex_lt(s[desc_pos(s, h)].label, h.label),
    decreases s.len(),
{
    if s.len() > 0 && !lex_lt(s[0].label, h.label) {
        lemma_desc_pos(s.drop_first(), h);
        let k = desc_pos(s, h);
        assert forall|i: int| 0 <= i < k implies !lex_lt(#[trigger] s[i].label, h.label) by {
            if i > 0 {
                assert(s[i] == s.drop_first()[i - 1]);
            }
        }
    }
}

/// The fallback's hits come out sorted by label, largest first.
pub proof fn lemma_sort_desc_sorted(s: Seq<ChatHit>)
    ensures
        sorted_desc(sort_desc(s)),
        sort_desc(s).len() == s.len(),
    decreases s.len(),
{
    if s.len() > 0 {
        let r = sort_desc(s.drop_last());
        let h = s.last();
        lemma_sort_desc_sorted(s.drop_last());
        lemma_desc_pos(r, h);
        let k = desc_pos(r, h);
        let t = r.insert(k, h);
        assert forall|i: int, j: int| 0 <= i < j < t.len() implies !lex_lt(#[trigger] t[i].label, #[trigger] t[j].label) by {
            if j == k {
                assert(t[i] == r[i]);
            } else if i == k {
                assert(t[j] == r[j - 1]);
                crate::text::lemma_lex_trichotomy(r[k].label, h.label);
                if j - 1 > k {
                    if lex_lt(h.label, r[j - 1].label) {
                        crate::text::lemma_lex_trichotomy(r[k].label, r[j - 1].label);
                        crate::text::lemma_lex_transitive(r[k].label, h.label, r[j - 1].label);
                    }
                } else {
                    crate::text::lemma_lex_trichotomy(h.label, r[k].label);
                }
            } else if i < k && j < k {
                assert(t[i] == r[i] && t[j] == r[j]);
            } else if i < k && j > k {
                assert(t[i] == r[i] && t[j] == r[j - 1]);
            } else {
                assert(t[i] == r[i - 1] && t[j] == r[j - 1]);
            }
        }
    }
}

/// The keyword fallback's reply: where the wiki has no pages directory, a
/// note saying so; else the (at most five) best pages by label, or a note
/// that nothing matched, quoting the first 80 characters of the message.
pub open spec fn spec_keyword_reply(
    project_name: Seq<char>,
    message: Seq<char>,
    wiki_exists: bool,
    pages: Seq<ChatPageView>,
) -> Seq<char> {
    if !wiki_exists {
        "[keyword fallback] No wiki pages exist yet for project '"@ + project_name
            + "'. Import sources from the Sources view to start the wiki."@
    } else {
        let sorted = sort_desc(chat_hits(pages, chat_tokens(message)));
        let hits = if sorted.len() > 5 {
            sorted.take(5)
        } else {
            sorted
        };
        if hits.len() == 0 {
            "[keyword fallback] Searched the wiki for '"@ + (if message.len() > 80 {
                message.take(80)
            } else {
                message
            }) + "' but found no matching pages. The headless server has no LLM; for richer answers run the desktop app."@
        } else {
            "[keyword fallback] Found "@ + decimal(hits.len() as int) + " matching wiki page(s):\n\n"@ + hit_lines(
                hits,
            )
        }
    }
}

/// One line per hit: `- {label} — `wiki/{rel}``.
pub open spec fn hit_lines(hits: Seq<ChatHit>) -> Seq<char>
    decreases hits.len(),
{
    if hits.len() == 0 {
        Seq::empty()
    } else {
        hit_lines(hits.drop_last()) + "- "@ + hits.last().label + " \u{2014} `wiki/"@ + hits.last().rel + "`\n"@
    }
}

fn push_chars(v: &mut Vec<char>, s: &str)
    ensures
        final(v)@ == old(v)@ + s@,
{
    let mut w = chars_of(s);
    v.append(&mut w);
}

fn push_seq(v: &mut Vec<char>, s: &[char])
    ensures
        final(v)@ == old(v)@ + s@,
{
    let mut i: usize = 0;
    let ghost start = v@;
    while i < s.len()
        invariant
            i <= s@.len(),
            v@ == start + s@.subrange(0, i as int),
        decreases s@.len() - i,
    {
        v.push(s[i]);
        i += 1;
        assert(v@ =~= start + s@.subrange(0, i as int));
    }
    assert(s@.subrange(0, s@.len() as int) =~= s@);
}

struct Hit {
    rel: Vec<char>,
    label: Vec<char>,
}

spec fn hit_view(h: Hit) -> ChatHit {
    ChatHit { rel: h.rel@, label: h.label@ }
}

spec fn hits_view(v: Seq<Hit>) -> Seq<ChatHit> {
    v.map_values(|h: Hit| hit_view(h))
}

fn page_hit(p: &ChatPage, tokens: &Vec<String>) -> (r: Option<Hit>)
    ensures
        match r {
            Some(h) => chat_hit(p@, strings_view(tokens@)) == Some(hit_view(h)),
            None => chat_hit(p@, strings_view(tokens@)) is None,
        },
{
    let ghost tv = strings_view(tokens@);
    let lower = chars_of(crate::text::to_lowercase(p.content.as_str()).as_str());
    let mut score: usize = 0;
    let mut i: usize = 0;
    assert(tv.subrange(0, 0) =~= Seq::<Seq<char>>::empty());
    while i < tokens.len()
        invariant
            i <= tokens@.len(),
            tv == strings_view(tokens@),
            lower@ == lowercase(p@.content),
            score <= i,
            score as nat == tokens_found(lower@, tv.subrange(0, i as int)),
        decreases tokens@.len() - i,
    {
        proof {
            assert(tv.subrange(0, i + 1).drop_last() =~= tv.subrange(0, i as int));
            assert(tv.subrange(0, i + 1).last() == tv[i as int]);
        }
        let t = chars_of(tokens[i].as_str());
        if t.len() > 0 && crate::text::contains_chars(lower.as_slice(), t.as_slice()) {
            score += 1;
        }
        i += 1;
    }
    assert(tv.subrange(0, tv.len() as int) =~= tv);
    if score == 0 {
        return None;
    }
    let mut label: Vec<char> = match crate::search::heading_line(p.content.as_str()) {
        Some(line) => {
            let hash = chars_of("# ");
            let t = trim_start_matches_str(line.as_slice(), hash.as_slice());
            crate::text::trim_chars(t.as_slice())
        },
        None => match &p.stem {
            Some(s) => chars_of(s.as_str()),
            None => chars_of("page"),
        },
    };
    assert(label@ == chat_title(p@));
    push_chars(&mut label, " (");
    let mut d = crate::text::format_u64(score as u64);
    label.append(&mut d);
    push_chars(&mut label, " matches)");
    Some(Hit { rel: chars_of(p.rel.as_str()), label })
}

/// Inserts `h` into a list sorted by label, largest first (see `desc_pos`).
fn insert_desc(v: &mut Vec<Hit>, h: Hit)
    ensures
        hits_view(final(v)@) == hits_view(old(v)@).insert(desc_pos(hits_view(old(v)@), hit_view(h)), hit_view(h)),
{
    let ghost s = hits_view(v@);
    let mut k: usize = 0;
    assert(s.subrange(0, s.len() as int) =~= s);
    while k < v.len()
        invariant
            k <= v@.len(),
            s == hits_view(v@),
            desc_pos(s, hit_view(h)) == k + desc_pos(s.subrange(k as int, s.len() as int), hit_view(h)),
        ensures
            k <= v@.len(),
            s == hits_view(v@),
            desc_pos(s, hit_view(h)) == k + desc_pos(s.subrange(k as int, s.len() as int), hit_view(h)),
            k < v@.len() ==> lex_lt(s[k as int].label, h.label@),
        decreases v@.len() - k,
    {
        if crate::text::lex_less(v[k].label.as_slice(), h.label.as_slice()) {
            break;
        }
        assert(s.subrange(k as int, s.len() as int).drop_first() =~= s.subrange(k + 1, s.len() as int));
        k += 1;
    }
    proof {
        if k < v@.len() {
            assert(s.subrange(k as int, s.len() as int)[0] == s[k as int]);
        } else {
            assert(s.subrange(k as int, s.len() as int).len() == 0);
        }
    }
    let ghost hv = hit_view(h);
    v.insert(k, h);
    assert(hits_view(v@) =~= s.insert(k as int, hv));
}

/// The keyword fallback's reply (see `spec_keyword_reply`).
pub fn build_keyword_chat_reply(project_name: &str, message: &str, wiki_exists: bool, pages: &[ChatPage]) -> (r:
    String)
    ensures
        r@ == spec_keyword_reply(project_name@, message@, wiki_exists, chat_pages_view(pages@)),
{
    let mut out: Vec<char> = Vec::new();
    if !wiki_exists {
        push_chars(&mut out, "[keyword fallback] No wiki pages exist yet for project '");
        push_chars(&mut out, project_name);
        push_chars(&mut out, "'. Import sources from the Sources view to start the wiki.");
        return string_of(out.as_slice());
    }
    let tokens = word_tokens_of(message, 3);
    let ghost tv = strings_view(tokens@);
    let ghost pv = chat_pages_view(pages@);
    let mut sorted: Vec<Hit> = Vec::new();
    let mut i: usize = 0;
    assert(pv.subrange(0, 0) =~= Seq::<ChatPageView>::empty());
    assert(hits_view(sorted@) =~= Seq::<ChatHit>::empty());
    while i < pages.len()
        invariant
            i <= pages@.len(),
            pv == chat_pages_view(pages@),
            tv == strings_view(tokens@),
            tv == chat_tokens(message@),
            hits_view(sorted@) == sort_desc(chat_hits(pv.subrange(0, i as int), tv)),
        decreases pages@.len() - i,
    {
        proof {
            assert(pv.subrange(0, i + 1).drop_last() =~= pv.subrange(0, i as int));
            assert(pv.subrange(0, i + 1).last() == pv[i as int]);
            assert(pv[i as int] == pages@[i as int]@);
        }
        match page_hit(&pages[i], &tokens) {
            Some(h) => {
                let ghost hv = hit_view(h);
                let ghost prev = chat_hits(pv.subrange(0, i as int), tv);
                assert(chat_hits(pv.subrange(0, i + 1), tv) == prev.push(hv));
                assert(prev.push(hv).drop_last() =~= prev);
                insert_desc(&mut sorted, h);
            },
            None => {},
        }
        i += 1;
    }
    assert(pv.subrange(0, pv.len() as int) =~= pv);
    sorted.truncate(5);
    let ghost all = sort_desc(chat_hits(pv, tv));
    let ghost hits = if all.len() > 5 {
        all.take(5)
    } else {
        all
    };
    assert(hits_view(sorted@) =~= hits);
    if sorted.len() == 0 {
        push_chars(&mut out, "[keyword fallback] Searched the wiki for '");
        let m = chars_of(message);
        if m.len() > 80 {
            push_seq(&mut out, crate::text::slice_chars(m.as_slice(), 0, 80).as_slice());
        } else {
            push_seq(&mut out, m.as_slice());
        }
        push_chars(
            &mut out,
            "' but found no matching pages. The headless server has no LLM; for richer answers run the desktop app.",
        );
        return string_of(out.as_slice());
    }
    push_chars(&mut out, "[keyword fallback] Found ");
    let mut d = crate::text::format_u64(sorted.len() as u64);
    out.append(&mut d);
    push_chars(&mut out, " matching wiki page(s):\n\n");
    let ghost head = out@;
    let mut k: usize = 0;
    assert(hits.subrange(0, 0) =~= Seq::<ChatHit>::empty());
    while k < sorted.len()
        invariant
            k <= sorted@.len(),
            hits == hits_view(sorted@),
            out@ == head + hit_lines(hits.subrange(0, k as int)),
        decreases sorted@.len() - k,
    {
        proof {
            assert(hits.subrange(0, k + 1).drop_last() =~= hits.subrange(0, k as int));
            assert(hits.subrange(0, k + 1).last() == hits[k as int]);
        }
        push_chars(&mut out, "- ");
        push_seq(&mut out, sorted[k].label.as_slice());
        push_chars(&mut out, " \u{2014} `wiki/");
        push_seq(&mut out, sorted[k].rel.as_slice());
        push_chars(&mut out, "`\n");
        k += 1;
    }
    assert(hits.subrange(0, hits.len() as int) =~= hits);
    string_of(out.as_slice())
}


/// What `serde_json` finds in the JSON text `doc` at the JSON pointer
/// `pointer` (RFC 6901): the string there, `None` where nothing or no
/// string is there, or the `Display` of the parse error where `doc` is not
/// JSON.
pub uninterp spec fn json_pointer_text(doc: Seq<char>, pointer: Seq<char>) -> Result<Option<Seq<char>>, Seq<char>>;

/// Parses `doc` with `serde_json::from_str` into a `serde_json::Value` and
/// looks up `pointer` with `Value::pointer`, keeping a string found there.
/// Trusted: the outcome depends on `doc` and `pointer` alone; what JSON
/// parsing and pointer lookup give is left unsaid.
#[verifier::external_body]
fn json_text_at(doc: &str, pointer: &str) -> (r: Result<Option<String>, String>)
    ensures
        match r {
            Ok(o) => json_pointer_text(doc@, pointer@) == Ok::<Option<Seq<char>>, Seq<char>>(opt_string_view(o)),
            Err(e) => json_pointer_text(doc@, pointer@) == Err::<Option<Seq<char>>, Seq<char>>(e@),
        },
{
    match serde_json::from_str::<serde_json::Value>(doc) {
        Ok(v) => match v.pointer(pointer) {
            Some(serde_json::Value::String(s)) => Ok(Some(s.clone())),
            _ => Ok(None),
        },
        Err(e) => Err(e.to_string()),
    }
}

/// The first line of `s`, empty where `s` is.
pub open spec fn first_line(s: Seq<char>) -> Seq<char> {
    if s.len() == 0 {
        Seq::empty()
    } else {
        line_at(s, 0)
    }
}

/// The reply text in a chat model's raw HTTP response: the head must
/// report status 200, and the JSON body must hold the text at
/// `/choices/0/message/content` or, failing that, at
/// `/output/0/content/0/text`.
pub open spec fn spec_parse_chat_response(raw: Seq<char>) -> Result<Seq<char>, Seq<char>> {
    match find_chars_from(raw, "\r\n\r\n"@, 0) {
        None => Err("HTTP response missing body separator"@),
        Some(k) => {
            let head = raw.subrange(0, k);
            let body = trim_start_str(raw.subrange(k, raw.len() as int), "\r\n\r\n"@);
            if !contains_seq(head, " 200"@) {
                Err("Agent HTTP error: "@ + first_line(head))
            } else {
                match json_pointer_text(body, "/choices/0/message/content"@) {
                    Err(e) => Err("Agent response is not JSON: "@ + e),
                    Ok(Some(t)) => Ok(t),
                    Ok(None) => match json_pointer_text(body, "/output/0/content/0/text"@) {
                        Ok(Some(t)) => Ok(t),
                        _ => Err("Agent response did not include a recognised text field"@),
                    },
                }
            }
        },
    }
}

pub fn parse_chat_response(raw: &str) -> (r: Result<String, String>)
    ensures
        match r {
            Ok(t) => spec_parse_chat_response(raw@) == Ok::<Seq<char>, Seq<char>>(t@),
            Err(e) => spec_parse_chat_response(raw@) == Err::<Seq<char>, Seq<char>>(e@),
        },
{
    let s = chars_of(raw);
    let sep = chars_of("\r\n\r\n");
    proof {
        reveal_strlit("\r\n\r\n");
    }
    let k = match crate::text::find_chars(s.as_slice(), sep.as_slice(), 0) {
        Some(k) => k,
        None => {
            return Err("HTTP response missing body separator".to_string());
        },
    };
    proof {
        crate::text::lemma_find_chars_from(s@, sep@, 0);
    }
    let n = s.len();
    let head = crate::text::slice_chars(s.as_slice(), 0, k);
    let rest = crate::text::slice_chars(s.as_slice(), k, n);
    let body = string_of(trim_start_matches_str(rest.as_slice(), sep.as_slice()).as_slice());
    if !crate::text::contains_chars(head.as_slice(), chars_of(" 200").as_slice()) {
        let mut msg = chars_of("Agent HTTP error: ");
        if head.len() > 0 {
            let (line, _) = crate::text::next_line(head.as_slice(), 0);
            push_seq(&mut msg, line.as_slice());
        }
        return Err(string_of(msg.as_slice()));
    }
    match json_text_at(body.as_str(), "/choices/0/message/content") {
        Err(e) => {
            let mut msg = chars_of("Agent response is not JSON: ");
            push_chars(&mut msg, e.as_str());
            Err(string_of(msg.as_slice()))
        },
        Ok(Some(t)) => Ok(t),
        Ok(None) => match json_text_at(body.as_str(), "/output/0/content/0/text") {
            Ok(Some(t)) => Ok(t),
            _ => Err("Agent response did not include a recognised text field".to_string()),
        },
    }
}

/// Whether a model's outcome leaves the reply to the keyword fallback: no
/// model, a failure, or a blank reply.
pub open spec fn spec_needs_fallback(outcome: Option<Result<Seq<char>, Seq<char>>>) -> bool {
    match outcome {
        Some(Ok(r)) => trim(r).len() == 0,
        _ => true,
    }
}

/// The agent's reply: the model's where it gave a non-blank one; the
/// keyword fallback where no model is configured or it replied blank;
/// after a failure, the error and then the fallback.
pub open spec fn spec_agent_reply(outcome: Option<Result<Seq<char>, Seq<char>>>, fallback: Seq<char>) -> Seq<char> {
    match outcome {
        None => fallback,
        Some(Ok(r)) => if trim(r).len() > 0 {
            r
        } else {
            fallback
        },
        Some(Err(e)) => "[agent error] "@ + e + "\n\n"@ + fallback,
    }
}

pub open spec fn outcome_view(o: Option<Result<String, String>>) -> Option<Result<Seq<char>, Seq<char>>> {
    match o {
        None => None,
        Some(Ok(r)) => Some(Ok(r@)),
        Some(Err(e)) => Some(Err(e@)),
    }
}

pub fn needs_fallback(outcome: &Option<Result<String, String>>) -> (r: bool)
    ensures
        r == spec_needs_fallback(outcome_view(*outcome)),
{
    match outcome {
        Some(Ok(reply)) => crate::text::trim_chars(chars_of(reply.as_str()).as_slice()).len() == 0,
        _ => true,
    }
}

pub fn agent_reply(outcome: Option<Result<String, String>>, fallback: &str) -> (r: String)
    ensures
        r@ == spec_agent_reply(outcome_view(outcome), fallback@),
{
    match outcome {
        None => fallback.to_string(),
        Some(Ok(reply)) => {
            if crate::text::trim_chars(chars_of(reply.as_str()).as_slice()).len() > 0 {
                reply
            } else {
                fallback.to_string()
            }
        },
        Some(Err(e)) => {
            let mut out = chars_of("[agent error] ");
            push_chars(&mut out, e.as_str());
            push_chars(&mut out, "\n\n");
            push_chars(&mut out, fallback);
            string_of(out.as_slice())
        },
    }
}

/// The chat model the agent talks to.
pub struct AgentProvider {
    pub kind: String,
    pub base_url: String,
    pub api_key: String,
    pub model: String,
}

pub open spec fn nonblank(o: Option<Seq<char>>) -> Option<Seq<char>> {
    match o {
        Some(v) => if trim(v).len() > 0 {
            Some(v)
        } else {
            None
        },
        None => None,
    }
}

/// The provider set by the environment: none without a non-blank base
/// URL; the model defaults to `gpt-4o-mini` and the kind, lower-cased, to
/// `openai`.
pub open spec fn spec_agent_provider(
    base_url: Option<Seq<char>>,
    api_key: Option<Seq<char>>,
    model: Option<Seq<char>>,
    kind: Option<Seq<char>>,
) -> Option<(Seq<char>, Seq<char>, Seq<char>, Seq<char>)> {
    match nonblank(base_url) {
        None => None,
        Some(url) => Some(
            (
                ascii_lower(
                    match nonblank(kind) {
                        Some(k) => k,
                        None => "openai"@,
                    },
                ),
                url,
                match api_key {
                    Some(k) => k,
                    None => Seq::empty(),
                },
                match nonblank(model) {
                    Some(m) => m,
                    None => "gpt-4o-mini"@,
                },
            ),
        ),
    }
}

fn nonblank_string(o: Option<String>) -> (r: Option<String>)
    ensures
        opt_string_view(r) == nonblank(opt_string_view(o)),
{
    match o {
        Some(v) => {
            if crate::text::trim_chars(chars_of(v.as_str()).as_slice()).len() > 0 {
                Some(v)
            } else {
                None
            }
        },
        None => None,
    }
}

/// The provider from the values of the agent's environment variables (see
/// `spec_agent_provider`); reading the environment is the caller's part.
pub fn agent_provider_from(
    base_url: Option<String>,
    api_key: Option<String>,
    model: Option<String>,
    kind: Option<String>,
) -> (r: Option<AgentProvider>)
    ensures
        match spec_agent_provider(
            opt_string_view(base_url),
            opt_string_view(api_key),
            opt_string_view(model),
            opt_string_view(kind),
        ) {
            None => r is None,
            Some((k, u, a, m)) => r matches Some(p) && p.kind@ == k && p.base_url@ == u && p.api_key@ == a
                && p.model@ == m,
        },
{
    let url = match nonblank_string(base_url) {
        Some(u) => u,
        None => {
            return None;
        },
    };
    let key = match api_key {
        Some(k) => k,
        None => String::new(),
    };
    let model = match nonblank_string(model) {
        Some(m) => m,
        None => "gpt-4o-mini".to_string(),
    };
    let kind_raw = match nonblank_string(kind) {
        Some(k) => k,
        None => "openai".to_string(),
    };
    let kind = string_of(crate::text::ascii_lowercase(chars_of(kind_raw.as_str()).as_slice()).as_slice());
    Some(AgentProvider { kind, base_url: url, api_key: key, model })
}

/// What a base URL reads as once parsed: its scheme, host, port (the one it
/// names, else the scheme's known default) and path.
pub struct UrlParts {
    pub scheme: String,
    pub host: Option<String>,
    pub port: Option<u16>,
    pub path: String,
}

/// A parsed URL as plain values: scheme, host, port and path.
pub open spec fn url_parts_view(u: UrlParts) -> (Seq<char>, Option<Seq<char>>, Option<u16>, Seq<char>) {
    (u.scheme@, opt_string_view(u.host), u.port, u.path@)
}

/// What `reqwest::Url::parse` reads from a string, taken through the URL's
/// `scheme`, `host_str`, `port_or_known_default` and `path`, or the text of
/// the parse error.
pub uninterp spec fn url_parse(input: Seq<char>) -> Result<(Seq<char>, Option<Seq<char>>, Option<u16>, Seq<char>), Seq<char>>;

/// Parses `input` with `reqwest::Url::parse` (the `url` crate's parser) and
/// reads the scheme, host, port or its known default, and path from the
/// result; on failure, the parse error as text. The contract claims only
/// that the outcome is `url_parse` of the input: the parser's rules are
/// left unsaid.
#[verifier::external_body]
fn parse_base_url(input: &str) -> (r: Result<UrlParts, String>)
    ensures
        match r {
            Ok(u) => url_parse(input@) == Ok::<(Seq<char>, Option<Seq<char>>, Option<u16>, Seq<char>), Seq<char>>(
                url_parts_view(u),
            ),
            Err(e) => url_parse(input@) == Err::<(Seq<char>, Option<Seq<char>>, Option<u16>, Seq<char>), Seq<char>>(
                e@,
            ),
        },
{
    match reqwest::Url::parse(input) {
        Ok(url) => Ok(UrlParts {
            scheme: url.scheme().to_string(),
            host: url.host_str().map(|h| h.to_string()),
            port: url.port_or_known_default(),
            path: url.path().to_string(),
        }),
        Err(err) => Err(err.to_string()),
    }
}

/// Where the agent sends a chat request.
pub struct ProviderEndpoint {
    pub host: String,
    pub port: u16,
    pub path: String,
}

pub open spec fn endpoint_view(e: ProviderEndpoint) -> (Seq<char>, u16, Seq<char>) {
    (e.host@, e.port, e.path@)
}

pub open spec fn https_refusal() -> Seq<char> {
    "HTTPS agent endpoints are not yet supported by the headless web server; set LLM_WIKI_AGENT_BASE_URL to an http:// endpoint."@
}

/// The endpoint a parsed base URL names: a URL that did not parse, or has
/// no host, is refused with its own message; a `https` or `wss` URL is
/// refused, since the agent speaks plain HTTP only; otherwise the host, the
/// port (443 where the URL gives none and its scheme has no known default)
/// and the path (`/` where it is empty).
pub open spec fn spec_endpoint(parsed: Result<(Seq<char>, Option<Seq<char>>, Option<u16>, Seq<char>), Seq<char>>) -> Result<
    (Seq<char>, u16, Seq<char>),
    Seq<char>,
> {
    match parsed {
        Err(e) => Err("Invalid agent base URL: "@ + e),
        Ok((scheme, host, port, path)) => match host {
            None => Err("Agent base URL is missing a host"@),
            Some(h) => if scheme == "https"@ || scheme == "wss"@ {
                Err(https_refusal())
            } else {
                Ok(
                    (
                        h,
                        match port {
                            Some(p) => p,
                            None => 443u16,
                        },
                        if path.len() == 0 {
                            "/"@
                        } else {
                            path
                        },
                    ),
                )
            },
        },
    }
}

/// The endpoint that a parsed base URL names (see `spec_endpoint`).
pub fn endpoint_from_parts(parsed: Result<UrlParts, String>) -> (r: Result<ProviderEndpoint, String>)
    ensures
        match r {
            Ok(e) => spec_endpoint(
                match parsed {
                    Ok(u) => Ok(url_parts_view(u)),
                    Err(m) => Err(m@),
                },
            ) == Ok::<(Seq<char>, u16, Seq<char>), Seq<char>>(endpoint_view(e)),
            Err(m) => spec_endpoint(
                match parsed {
                    Ok(u) => Ok(url_parts_view(u)),
                    Err(m) => Err(m@),
                },
            ) == Err::<(Seq<char>, u16, Seq<char>), Seq<char>>(m@),
        },
{
    match parsed {
        Err(e) => {
            let mut out = chars_of("Invalid agent base URL: ");
            push_chars(&mut out, e.as_str());
            Err(string_of(out.as_slice()))
        },
        Ok(u) => match u.host {
            None => Err("Agent base URL is missing a host".to_string()),
            Some(h) => {
                let scheme = chars_of(u.scheme.as_str());
                let https = chars_of("https");
                let wss = chars_of("wss");
                if crate::text::same_chars(scheme.as_slice(), https.as_slice()) || crate::text::same_chars(
                    scheme.as_slice(),
                    wss.as_slice(),
                ) {
                    proof {
                        reveal_strlit("https");
                        reveal_strlit("wss");
                    }
                    return Err(
                        "HTTPS agent endpoints are not yet supported by the headless web server; set LLM_WIKI_AGENT_BASE_URL to an http:// endpoint.".to_string(),
                    );
                }
                let port = match u.port {
                    Some(p) => p,
                    None => 443u16,
                };
                let path = if chars_of(u.path.as_str()).len() == 0 {
                    "/".to_string()
                } else {
                    u.path
                };
                Ok(ProviderEndpoint { host: h, port, path })
            },
        },
    }
}

/// The endpoint that a provider's base URL names, as the URL parser reads
/// it (see `spec_endpoint`).
pub fn provider_endpoint(base_url: &str) -> (r: Result<ProviderEndpoint, String>)
    ensures
        match r {
            Ok(e) => spec_endpoint(url_parse(base_url@)) == Ok::<(Seq<char>, u16, Seq<char>), Seq<char>>(
                endpoint_view(e),
            ),
            Err(m) => spec_endpoint(url_parse(base_url@)) == Err::<(Seq<char>, u16, Seq<char>), Seq<char>>(m@),
        },
{
    endpoint_from_parts(parse_base_url(base_url))
}

/// The head of a chat request: the request line for `path`, the `Host`,
/// JSON content type, body length and `Connection: close` headers, a bearer
/// `Authorization` header where an API key is set, and the blank line.
pub open spec fn spec_request_head(path: Seq<char>, host: Seq<char>, content_length: nat, api_key: Seq<char>) -> Seq<char> {
    "POST "@ + path + " HTTP/1.1\r\nHost: "@ + host + "\r\nContent-Type: application/json\r\nContent-Length: "@
        + decimal(content_length as int) + "\r\nConnection: close\r\n"@ + (if api_key.len() > 0 {
        "Authorization: Bearer "@ + api_key + "\r\n"@
    } else {
        Seq::empty()
    }) + "\r\n"@
}

pub fn provider_request_head(path: &str, host: &str, content_length: u64, api_key: &str) -> (r: String)
    ensures
        r@ == spec_request_head(path@, host@, content_length as nat, api_key@),
{
    let mut out = chars_of("POST ");
    push_chars(&mut out, path);
    push_chars(&mut out, " HTTP/1.1\r\nHost: ");
    push_chars(&mut out, host);
    push_chars(&mut out, "\r\nContent-Type: application/json\r\nContent-Length: ");
    let mut n = crate::text::format_u64(content_length);
    out.append(&mut n);
    push_chars(&mut out, "\r\nConnection: close\r\n");
    if chars_of(api_key).len() > 0 {
        push_chars(&mut out, "Authorization: Bearer ");
        push_chars(&mut out, api_key);
        push_chars(&mut out, "\r\n");
    }
    push_chars(&mut out, "\r\n");
    string_of(out.as_slice())
}

/// The system message that opens a chat with the model.
pub fn system_prompt(project_name: &str) -> (r: String)
    ensures
        r@ == "You are the headless LLM Wiki assistant for project '"@ + project_name@
            + "'. Answer concisely and ground your reply in the project's wiki when possible."@,
{
    let mut out = chars_of("You are the headless LLM Wiki assistant for project '");
    push_chars(&mut out, project_name);
    push_chars(&mut out, "'. Answer concisely and ground your reply in the project's wiki when possible.");
    string_of(out.as_slice())
}

/// What a chat task works on: the user's message and the session it
/// belongs to.
pub struct ChatTurn {
    pub message: String,
    pub session: String,
}

pub open spec fn first_of(a: Option<Seq<char>>, b: Option<Seq<char>>) -> Option<Seq<char>> {
    match a {
        Some(v) => Some(v),
        None => b,
    }
}

/// A chat task takes its message and session from the task's payload, else
/// from the request body; a turn without a message fails, and one without a
/// session starts `web-` followed by the time in milliseconds.
pub open spec fn spec_chat_turn(
    payload_message: Option<Seq<char>>,
    body_message: Option<Seq<char>>,
    payload_session: Option<Seq<char>>,
    body_session: Option<Seq<char>>,
    now_ms: i64,
) -> Result<(Seq<char>, Seq<char>), Seq<char>> {
    let message = match first_of(payload_message, body_message) {
        Some(m) => m,
        None => Seq::empty(),
    };
    let session = match first_of(payload_session, body_session) {
        Some(s) => s,
        None => "web-"@ + decimal(now_ms as int),
    };
    if message.len() == 0 {
        Err("Missing chat message"@)
    } else {
        Ok((message, session))
    }
}

pub fn chat_turn(
    payload_message: Option<String>,
    body_message: Option<String>,
    payload_session: Option<String>,
    body_session: Option<String>,
    now_ms: i64,
) -> (r: Result<ChatTurn, String>)
    ensures
        match spec_chat_turn(
            opt_string_view(payload_message),
            opt_string_view(body_message),
            opt_string_view(payload_session),
            opt_string_view(body_session),
            now_ms,
        ) {
            Ok((m, s)) => r matches Ok(t) && t.message@ == m && t.session@ == s,
            Err(e) => r matches Err(x) && x@ == e,
        },
{
    let message = match payload_message {
        Some(m) => m,
        None => match body_message {
            Some(m) => m,
            None => String::new(),
        },
    };
    if chars_of(message.as_str()).len() == 0 {
        return Err("Missing chat message".to_string());
    }
    let session = match payload_session {
        Some(s) => s,
        None => match body_session {
            Some(s) => s,
            None => {
                let mut out = chars_of("web-");
                let mut n = crate::text::format_i64(now_ms);
                out.append(&mut n);
                string_of(out.as_slice())
            },
        },
    };
    Ok(ChatTurn { message, session })
}

} // verus!


