//! The filtering pipeline: posts are serialized into a delimited text
//! protocol (`title<::>url`, optionally `<::>score` and `<::>timestamp`),
//! embedded in an instruction for the external text-generation service, and
//! the service's reply is parsed back into posts. A reply line that does not
//! carry at least a title and a URL — or any other departure from the line
//! format — fails the whole filter call rather than being dropped silently.
use vstd::prelude::*;

use crate::sources::Post;
use crate::sources::PostView;
use crate::sources::Source;
use crate::sources::posts_view;
use crate::sources::urls_present;
use crate::text::char_free;
use crate::text::dec_digits;
use crate::text::lemma_char_free_sep_free;
use crate::text::lemma_dec_digits_are_digits;
use crate::text::lemma_parse_dec_digits;
use crate::text::lemma_split_concat;
use crate::text::lemma_split_sep_free;
use crate::text::no_self_overlap;
use crate::text::parse_dec;
use crate::text::parse_u64;
use crate::text::sep_free;
use crate::text::split_on;
use crate::text::split_str;
use crate::text::u64_to_string;
use crate::text::views_of;
use crate::text::is_digit;

verus! {

/// Why a filter call failed.
#[derive(Debug, PartialEq, Eq, Structural, Clone, Copy)]
pub enum FilterError {
    /// The filter was asked to run on an empty collection; no service call is
    /// made in that case.
    EmptyInput,
    /// The service's reply could not be parsed back into posts; the published
    /// snapshot is left as it was.
    MalformedResponse,
}

/// The four-character field separator of the wire protocol.
pub open spec fn sep_seq() -> Seq<char> {
    seq!['<', ':', ':', '>']
}

/// The line separator of the wire protocol.
pub open spec fn nl_seq() -> Seq<char> {
    seq!['\n']
}

/// One wire line: title and URL, then — when present — score, and time only
/// beside a score.
pub open spec fn post_line(p: PostView) -> Seq<char>
    recommends
        p.url is Some,
{
    let base = p.title + sep_seq() + p.url->Some_0;
    match (p.score, p.time) {
        (Some(sc), Some(t)) => base + sep_seq() + dec_digits(sc as nat) + sep_seq() + dec_digits(
            t as nat,
        ),
        (Some(sc), None) => base + sep_seq() + dec_digits(sc as nat),
        _ => base,
    }
}

/// The whole payload: wire lines joined by newlines, no trailing newline.
pub open spec fn wire_lines(ps: Seq<PostView>) -> Seq<char>
    decreases ps.len(),
{
    if ps.len() == 0 {
        Seq::empty()
    } else if ps.len() == 1 {
        post_line(ps[0])
    } else {
        post_line(ps[0]) + nl_seq() + wire_lines(ps.drop_first())
    }
}

proof fn lemma_wire_lines_push(ps: Seq<PostView>, p: PostView)
    ensures
        wire_lines(ps.push(p)) == if ps.len() == 0 {
            post_line(p)
        } else {
            wire_lines(ps) + nl_seq() + post_line(p)
        },
    decreases ps.len(),
{
    if ps.len() == 0 {
        assert(ps.push(p).len() == 1);
        assert(ps.push(p)[0] == p);
    } else {
        assert(ps.push(p)[0] == ps[0]);
        assert(ps.push(p).drop_first() =~= ps.drop_first().push(p));
        lemma_wire_lines_push(ps.drop_first(), p);
        assert(wire_lines(ps.push(p)) =~= wire_lines(ps) + nl_seq() + post_line(p));
    }
}

fn sep_str() -> (r: &'static str)
    ensures
        r@ == sep_seq(),
{
    proof {
        reveal_strlit("<::>");
    }
    assert("<::>"@ =~= sep_seq());
    "<::>"
}

fn nl_str() -> (r: &'static str)
    ensures
        r@ == nl_seq(),
{
    proof {
        reveal_strlit("\n");
    }
    assert("\n"@ =~= nl_seq());
    "\n"
}

/// Appends one wire line for `p` to `s`.
fn append_post(s: &mut String, p: &Post)
    requires
        p.url is Some,
    ensures
        final(s)@ == old(s)@ + post_line(p@),
{
    let ghost start = s@;
    s.append(p.title.as_str());
    s.append(sep_str());
    let u = p.url.as_ref().unwrap();
    s.append(u.as_str());
    match (p.score, p.time) {
        (Some(sc), Some(t)) => {
            s.append(sep_str());
            let sc_s = u64_to_string(sc);
            s.append(sc_s.as_str());
            s.append(sep_str());
            let t_s = u64_to_string(t);
            s.append(t_s.as_str());
            assert(s@ =~= start + post_line(p@));
        },
        (Some(sc), None) => {
            s.append(sep_str());
            let sc_s = u64_to_string(sc);
            s.append(sc_s.as_str());
            assert(s@ =~= start + post_line(p@));
        },
        _ => {
            assert(s@ =~= start + post_line(p@));
        },
    }
}

/// Serializes posts into the delimited wire payload.
pub fn serialize_posts(posts: &Vec<Post>) -> (r: String)
    requires
        urls_present(posts_view(posts@)),
    ensures
        r@ == wire_lines(posts_view(posts@)),
{
    let mut out = String::new();
    let mut i: usize = 0;
    proof {
        assert(posts_view(posts@).take(0) =~= Seq::<PostView>::empty());
    }
    while i < posts.len()
        invariant
            0 <= i <= posts@.len(),
            urls_present(posts_view(posts@)),
            out@ == wire_lines(posts_view(posts@).take(i as int)),
        decreases posts@.len() - i,
    {
        proof {
            assert(posts_view(posts@)[i as int] == posts@[i as int]@);
        }
        if i > 0 {
            out.append(nl_str());
        }
        append_post(&mut out, &posts[i]);
        proof {
            let pv = posts_view(posts@);
            lemma_wire_lines_push(pv.take(i as int), pv[i as int]);
            assert(pv.take(i + 1) =~= pv.take(i as int).push(pv[i as int]));
            assert(out@ =~= wire_lines(pv.take(i + 1)));
        }
        i = i + 1;
    }
    proof {
        assert(posts_view(posts@).take(posts@.len() as int) =~= posts_view(posts@));
    }
    out
}

/// The instruction that precedes the payload in the prompt.
pub open spec fn instruction_prefix() -> Seq<char> {
    "Take the given entries detailing tech articles and only keep the entries that are related to AI and ML. Be strict with the filtering. Entries are in the format: title<::>url<::>score<::>timestamp. ONLY OUTPUT AS THEY ARE PROVIDED, NOTHING ELSE, NOT EVEN MARKDOWN BACKTICK INDICATORS; USE \n to seperate entries. RETURN THEM IN AN ORDER OF HIGHEST TO LOWEST SCORES: "@
}

/// The full prompt for a set of posts.
pub open spec fn filter_prompt(ps: Seq<PostView>) -> Seq<char> {
    instruction_prefix() + wire_lines(ps)
}

/// Builds the prompt sent to the filtering service. An empty collection is
/// rejected with `EmptyInput` before any service call could be made.
pub fn build_filter_request(posts: &Vec<Post>) -> (r: Result<String, FilterError>)
    requires
        urls_present(posts_view(posts@)),
    ensures
        posts@.len() == 0 <==> r is Err,
        r is Err ==> r->Err_0 == FilterError::EmptyInput,
        r matches Ok(s) ==> s@ == filter_prompt(posts_view(posts@)),
{
    if posts.len() == 0 {
        return Err(FilterError::EmptyInput);
    }
    let mut s = String::from_str(
        "Take the given entries detailing tech articles and only keep the entries that are related to AI and ML. Be strict with the filtering. Entries are in the format: title<::>url<::>score<::>timestamp. ONLY OUTPUT AS THEY ARE PROVIDED, NOTHING ELSE, NOT EVEN MARKDOWN BACKTICK INDICATORS; USE \n to seperate entries. RETURN THEM IN AN ORDER OF HIGHEST TO LOWEST SCORES: ",
    );
    let payload = serialize_posts(posts);
    s.append(payload.as_str());
    Ok(s)
}

/// One parsed wire line: two fields give title and URL, a third a score, a
/// fourth a timestamp; numeric fields must parse as decimal `u64`. Anything
/// else — fewer than two fields, more than four, non-numeric digits — is
/// malformed.
pub open spec fn parse_line(line: Seq<char>) -> Option<PostView> {
    let parts = split_on(line, sep_seq());
    if parts.len() == 2 {
        Some(PostView { title: parts[0], url: Some(parts[1]), score: None, time: None })
    } else if parts.len() == 3 {
        match parse_dec(parts[2]) {
            Some(sc) => Some(
                PostView { title: parts[0], url: Some(parts[1]), score: Some(sc), time: None },
            ),
            None => None,
        }
    } else if parts.len() == 4 {
        match (parse_dec(parts[2]), parse_dec(parts[3])) {
            (Some(sc), Some(t)) => Some(
                PostView { title: parts[0], url: Some(parts[1]), score: Some(sc), time: Some(t) },
            ),
            _ => None,
        }
    } else {
        None
    }
}

/// Parses a list of wire lines; one malformed line fails the whole list.
pub open spec fn parse_lines_rec(lines: Seq<Seq<char>>) -> Option<Seq<PostView>>
    decreases lines.len(),
{
    if lines.len() == 0 {
        Some(Seq::empty())
    } else {
        match parse_line(lines.first()) {
            None => None,
            Some(p) => match parse_lines_rec(lines.drop_first()) {
                None => None,
                Some(r) => Some(seq![p] + r),
            },
        }
    }
}

/// Parses a whole wire payload.
pub open spec fn parse_wire(text: Seq<char>) -> Option<Seq<PostView>> {
    parse_lines_rec(split_on(text, nl_seq()))
}

/// Whatever parses is fully populated: every parsed post carries a URL.
pub proof fn lemma_parsed_posts_have_urls(lines: Seq<Seq<char>>)
    ensures
        parse_lines_rec(lines) matches Some(ps) ==> urls_present(ps),
    decreases lines.len(),
{
    if lines.len() > 0 {
        match parse_line(lines.first()) {
            None => {},
            Some(p) => {
                lemma_parsed_posts_have_urls(lines.drop_first());
                match parse_lines_rec(lines.drop_first()) {
                    None => {},
                    Some(r) => {
                        assert(p.url is Some);
                        assert forall|i: int| 0 <= i < (seq![p] + r).len() implies (#[trigger] (
                        seq![p] + r)[i]).url is Some by {
                            if i > 0 {
                                assert((seq![p] + r)[i] == r[i - 1]);
                            }
                        }
                    },
                }
            },
        }
    }
}

/// Parses one reply line into a post.
fn parse_post_line(line: &str) -> (r: Option<Post>)
    ensures
        match r {
            Some(p) => parse_line(line@) == Some(p@),
            None => parse_line(line@) is None,
        },
{
    let parts = split_str(line, sep_str());
    proof {
        assert(views_of(parts@) == split_on(line@, sep_seq()));
        assert(forall|k: int|
            0 <= k < parts@.len() ==> views_of(parts@)[k] == (#[trigger] parts@[k])@);
    }
    if parts.len() == 2 {
        Some(Post { title: parts[0].clone(), url: Some(parts[1].clone()), score: None, time: None })
    } else if parts.len() == 3 {
        match parse_u64(parts[2].as_str()) {
            Some(sc) => Some(
                Post {
                    title: parts[0].clone(),
                    url: Some(parts[1].clone()),
                    score: Some(sc),
                    time: None,
                },
            ),
            None => None,
        }
    } else if parts.len() == 4 {
        let sc = parse_u64(parts[2].as_str());
        let t = parse_u64(parts[3].as_str());
        match (sc, t) {
            (Some(sc), Some(t)) => Some(
                Post {
                    title: parts[0].clone(),
                    url: Some(parts[1].clone()),
                    score: Some(sc),
                    time: Some(t),
                },
            ),
            _ => None,
        }
    } else {
        None
    }
}

/// Parses the unwrapped reply text into posts. Fails with
/// `MalformedResponse` exactly when the text does not follow the wire
/// protocol.
pub fn parse_filter_lines(text: &str) -> (r: Result<Vec<Post>, FilterError>)
    ensures
        match r {
            Ok(v) => parse_wire(text@) == Some(posts_view(v@)) && urls_present(posts_view(v@)),
            Err(e) => e == FilterError::MalformedResponse && parse_wire(text@) is None,
        },
{
    let lines = split_str(text, nl_str());
    let ghost lviews = views_of(lines@);
    proof {
        assert(lviews == split_on(text@, nl_seq()));
        assert(forall|k: int|
            0 <= k < lines@.len() ==> lviews[k] == (#[trigger] lines@[k])@);
        assert(lviews.skip(0) =~= lviews);
        assert(posts_view(Seq::<Post>::empty()) =~= Seq::<PostView>::empty());
    }
    let mut out: Vec<Post> = Vec::new();
    let mut i: usize = 0;
    while i < lines.len()
        invariant
            0 <= i <= lines@.len(),
            lviews == views_of(lines@),
            lviews == split_on(text@, nl_seq()),
            parse_lines_rec(lviews) == (match parse_lines_rec(lviews.skip(i as int)) {
                None => None::<Seq<PostView>>,
                Some(rest) => Some(posts_view(out@) + rest),
            }),
        decreases lines@.len() - i,
    {
        let ghost tail = lviews.skip(i as int);
        proof {
            assert(tail.len() > 0);
            assert(tail.first() == lviews[i as int]);
            assert(tail.drop_first() =~= lviews.skip(i as int + 1));
        }
        match parse_post_line(lines[i].as_str()) {
            None => {
                proof {
                    assert(parse_lines_rec(tail) is None);
                }
                return Err(FilterError::MalformedResponse);
            },
            Some(p) => {
                let ghost out_pre = out@;
                out.push(p);
                proof {
                    assert(posts_view(out@) =~= posts_view(out_pre).push(p@));
                    match parse_lines_rec(lviews.skip(i as int + 1)) {
                        Some(rest) => {
                            assert(parse_lines_rec(tail) == Some(seq![p@] + rest));
                            assert(posts_view(out_pre) + (seq![p@] + rest)
                                =~= posts_view(out@) + rest);
                        },
                        None => {},
                    }
                }
                i = i + 1;
            },
        }
    }
    proof {
        assert(lviews.skip(lines@.len() as int) =~= Seq::<Seq<char>>::empty());
        assert(posts_view(out@) + Seq::<PostView>::empty() =~= posts_view(out@));
        lemma_parsed_posts_have_urls(lviews);
    }
    Ok(out)
}

/// What the filtering service's JSON reply carries at
/// `output[0].content[0].text`, when that path holds a string.
pub uninterp spec fn output_text_of(body: Seq<char>) -> Option<Seq<char>>;

/// Relies on serde_json::from_str and serde_json::Value::{get, as_str}: the
/// string at `output[0].content[0].text` of the reply body, `None` when the
/// body is not JSON or the path is absent or not a string. The result depends
/// on the body alone.
#[verifier::external_body]
fn extract_output_text(body: &str) -> (r: Option<String>)
    ensures
        r is Some <==> output_text_of(body@) is Some,
        r matches Some(t) ==> t@ == output_text_of(body@)->Some_0,
{
    let v: serde_json::Value = serde_json::from_str(body).ok()?;
    let text = v.get("output")?.get(0)?.get("content")?.get(0)?.get("text")?.as_str()?;
    Some(text.to_string())
}

/// Unwraps the service's JSON reply and parses the embedded wire text. Fails
/// with `MalformedResponse` exactly when the reply carries no text at the
/// expected path, or the text breaks the wire protocol.
pub fn parse_filter_response(body: &str) -> (r: Result<Vec<Post>, FilterError>)
    ensures
        output_text_of(body@) is None ==> r == Err::<Vec<Post>, FilterError>(
            FilterError::MalformedResponse,
        ),
        output_text_of(body@) matches Some(t) ==> (match parse_wire(t) {
            Some(ps) => r is Ok && posts_view(r->Ok_0@) == ps && urls_present(ps),
            None => r == Err::<Vec<Post>, FilterError>(FilterError::MalformedResponse),
        }),
{
    match extract_output_text(body) {
        None => Err(FilterError::MalformedResponse),
        Some(t) => parse_filter_lines(t.as_str()),
    }
}

/// A string that the wire protocol can carry literally: it contains neither
/// the field separator nor a line break.
pub open spec fn wire_safe(s: Seq<char>) -> bool {
    sep_free(s, sep_seq()) && char_free(s, '\n')
}

/// A post whose wire line parses back to the same value: it has a URL, its
/// strings are wire-safe, and a timestamp only stands beside a score.
pub open spec fn wire_post(p: PostView) -> bool {
    &&& p.url is Some
    &&& wire_safe(p.title)
    &&& wire_safe(p.url->Some_0)
    &&& (p.time is Some ==> p.score is Some)
}

proof fn lemma_char_free_concat(a: Seq<char>, b: Seq<char>, c: char)
    requires
        char_free(a, c),
        char_free(b, c),
    ensures
        char_free(a + b, c),
{
    assert forall|i: int| 0 <= i < (a + b).len() implies (a + b)[i] != c by {
        if i < a.len() {
            assert((a + b)[i] == a[i]);
        } else {
            assert((a + b)[i] == b[i - a.len()]);
        }
    }
}

proof fn lemma_sep_no_self_overlap()
    ensures
        no_self_overlap(sep_seq()),
        no_self_overlap(nl_seq()),
{
    let sep = sep_seq();
    assert forall|k: int| 1 <= k < sep.len() implies sep.skip(k) != sep.take(
        sep.len() - k,
    ) by {
        if sep.skip(k) == sep.take(sep.len() - k) {
            assert(sep.skip(k)[0] == sep[k]);
            assert(sep.take(sep.len() - k)[0] == sep[0]);
            assert(sep[0] == '<');
            assert(sep[1] == ':' && sep[2] == ':' && sep[3] == '>');
        }
    }
}

/// A decimal string is wire-safe: every character is a digit, and digits are
/// neither `<` (the separator's first character) nor a line break.
proof fn lemma_dec_digits_wire_safe(n: nat)
    ensures
        wire_safe(dec_digits(n)),
        dec_digits(n).len() >= 1,
{
    lemma_dec_digits_are_digits(n);
    let s = dec_digits(n);
    assert(char_free(s, '<')) by {
        assert forall|i: int| 0 <= i < s.len() implies s[i] != '<' by {
            assert(is_digit(s[i]));
        }
    }
    lemma_char_free_sep_free(s, sep_seq());
    assert(char_free(s, '\n')) by {
        assert forall|i: int| 0 <= i < s.len() implies s[i] != '\n' by {
            assert(is_digit(s[i]));
        }
    }
}

/// The separator itself contains no line break.
proof fn lemma_sep_nl_free()
    ensures
        char_free(sep_seq(), '\n'),
{
    let sep = sep_seq();
    assert forall|i: int| 0 <= i < sep.len() implies sep[i] != '\n' by {
        assert(sep[0] == '<' && sep[1] == ':' && sep[2] == ':' && sep[3] == '>');
    }
}

/// The wire line of a wire-safe post contains no line break.
proof fn lemma_post_line_nl_free(p: PostView)
    requires
        wire_post(p),
    ensures
        char_free(post_line(p), '\n'),
{
    lemma_sep_nl_free();
    lemma_char_free_concat(p.title, sep_seq(), '\n');
    lemma_char_free_concat(p.title + sep_seq(), p.url->Some_0, '\n');
    let base = p.title + sep_seq() + p.url->Some_0;
    match (p.score, p.time) {
        (Some(sc), Some(t)) => {
            lemma_dec_digits_wire_safe(sc as nat);
            lemma_dec_digits_wire_safe(t as nat);
            lemma_char_free_concat(base, sep_seq(), '\n');
            lemma_char_free_concat(base + sep_seq(), dec_digits(sc as nat), '\n');
            lemma_char_free_concat(base + sep_seq() + dec_digits(sc as nat), sep_seq(), '\n');
            lemma_char_free_concat(
                base + sep_seq() + dec_digits(sc as nat) + sep_seq(),
                dec_digits(t as nat),
                '\n',
            );
        },
        (Some(sc), None) => {
            lemma_dec_digits_wire_safe(sc as nat);
            lemma_char_free_concat(base, sep_seq(), '\n');
            lemma_char_free_concat(base + sep_seq(), dec_digits(sc as nat), '\n');
        },
        _ => {},
    }
}

/// Splitting the wire line of a wire-safe post recovers its fields.
proof fn lemma_split_post_line(p: PostView)
    requires
        wire_post(p),
    ensures
        split_on(post_line(p), sep_seq()) == (match (p.score, p.time) {
            (Some(sc), Some(t)) => seq![
                p.title,
                p.url->Some_0,
                dec_digits(sc as nat),
                dec_digits(t as nat),
            ],
            (Some(sc), None) => seq![p.title, p.url->Some_0, dec_digits(sc as nat)],
            _ => seq![p.title, p.url->Some_0],
        }),
{
    lemma_sep_no_self_overlap();
    let sep = sep_seq();
    let url = p.url->Some_0;
    match (p.score, p.time) {
        (Some(sc), Some(t)) => {
            let sc_s = dec_digits(sc as nat);
            let t_s = dec_digits(t as nat);
            lemma_dec_digits_wire_safe(sc as nat);
            lemma_dec_digits_wire_safe(t as nat);
            let tail2 = sc_s + sep + t_s;
            assert(post_line(p) =~= p.title + sep + (url + sep + tail2));
            lemma_split_concat(p.title, sep, url + sep + tail2);
            lemma_split_concat(url, sep, tail2);
            lemma_split_concat(sc_s, sep, t_s);
            lemma_split_sep_free(t_s, sep);
            assert(split_on(post_line(p), sep) =~~= seq![p.title, url, sc_s, t_s]);
        },
        (Some(sc), None) => {
            let sc_s = dec_digits(sc as nat);
            lemma_dec_digits_wire_safe(sc as nat);
            assert(post_line(p) =~= p.title + sep + (url + sep + sc_s));
            lemma_split_concat(p.title, sep, url + sep + sc_s);
            lemma_split_concat(url, sep, sc_s);
            lemma_split_sep_free(sc_s, sep);
            assert(split_on(post_line(p), sep) =~~= seq![p.title, url, sc_s]);
        },
        _ => {
            assert(post_line(p) =~= p.title + sep + url);
            lemma_split_concat(p.title, sep, url);
            lemma_split_sep_free(url, sep);
            assert(split_on(post_line(p), sep) =~~= seq![p.title, url]);
        },
    }
}

/// Parsing the wire line of a wire-safe post gives the post back.
proof fn lemma_parse_line_round(p: PostView)
    requires
        wire_post(p),
    ensures
        parse_line(post_line(p)) == Some(p),
{
    lemma_split_post_line(p);
    match (p.score, p.time) {
        (Some(sc), Some(t)) => {
            lemma_parse_dec_digits(sc);
            lemma_parse_dec_digits(t);
        },
        (Some(sc), None) => {
            lemma_parse_dec_digits(sc);
        },
        _ => {},
    }
}

/// Serializing wire-safe posts and parsing the result gives the posts back:
/// the round trip of the delimited protocol, for the minimal (title and URL)
/// and the rich (title, URL, score, timestamp) line variants alike.
pub proof fn lemma_wire_round_trip(ps: Seq<PostView>)
    requires
        ps.len() >= 1,
        forall|i: int| 0 <= i < ps.len() ==> wire_post(#[trigger] ps[i]),
    ensures
        parse_wire(wire_lines(ps)) == Some(ps),
    decreases ps.len(),
{
    lemma_sep_no_self_overlap();
    lemma_post_line_nl_free(ps[0]);
    lemma_char_free_sep_free(post_line(ps[0]), nl_seq());
    lemma_parse_line_round(ps[0]);
    if ps.len() == 1 {
        lemma_split_sep_free(post_line(ps[0]), nl_seq());
        let lines = split_on(wire_lines(ps), nl_seq());
        assert(lines =~= seq![post_line(ps[0])]);
        assert(lines.first() == post_line(ps[0]));
        assert(lines.drop_first() =~= Seq::<Seq<char>>::empty());
        assert(parse_lines_rec(lines.drop_first()) == Some(Seq::<PostView>::empty()));
        assert(seq![ps[0]] + Seq::<PostView>::empty() =~= ps);
    } else {
        let rest = ps.drop_first();
        assert(forall|i: int| 0 <= i < rest.len() ==> wire_post(#[trigger] rest[i]));
        lemma_wire_round_trip(rest);
        lemma_split_concat(post_line(ps[0]), nl_seq(), wire_lines(rest));
        let lines = split_on(wire_lines(ps), nl_seq());
        assert(lines == seq![post_line(ps[0])] + split_on(wire_lines(rest), nl_seq()));
        assert(lines.first() == post_line(ps[0]));
        assert(lines.drop_first() =~~= split_on(wire_lines(rest), nl_seq()));
        assert(parse_lines_rec(lines.drop_first()) == Some(rest));
        assert(seq![ps[0]] + rest =~= ps);
    }
}

/// Applies one filter outcome to the store: a successful filter replaces the
/// published snapshot (cut back to the cap if it overflows), a failed one
/// leaves the store exactly as it was.
pub fn apply_filter_result<S: Source>(source: &mut S, outcome: Result<Vec<Post>, FilterError>)
    requires
        old(source).inv(),
    ensures
        final(source).inv(),
        final(source).raw_view() == old(source).raw_view(),
        final(source).raw_cap() == old(source).raw_cap(),
        final(source).published_cap() == old(source).published_cap(),
        final(source).published_view() == (match outcome {
            Ok(posts) => if posts@.len() > old(source).published_cap() {
                posts_view(posts@).take(old(source).published_cap() - 1)
            } else {
                posts_view(posts@)
            },
            Err(_) => old(source).published_view(),
        }),
{
    match outcome {
        Ok(posts) => source.push_unconditional(posts),
        Err(_) => (),
    }
}

} // verus!
