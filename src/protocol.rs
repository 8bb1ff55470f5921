//! The request lines of the wire protocol: `set <key> <value>`, `get <key>`,
//! `rm <key>`, and how a server answers them against an engine.
use crate::enums::{KvsCommand, KvsCommandView, KvsResponse};
use crate::errors::KvsError;
use crate::text::{chars_of, string_of};
use crate::traits::KvsEngine;
use vstd::prelude::*;

verus! {

/// The separators between the words of a request.
pub open spec fn ascii_ws(c: char) -> bool {
    c == ' ' || c == '\t' || c == '\n' || c == '\x0C' || c == '\r'
}

/// The words of `s` from `i` on, `cur` being the word begun before `i`.
pub open spec fn words_from(s: Seq<char>, i: int, cur: Seq<char>) -> Seq<Seq<char>>
    decreases s.len() - i,
{
    if i >= s.len() || i < 0 {
        if cur.len() > 0 {
            seq![cur]
        } else {
            Seq::empty()
        }
    } else if ascii_ws(s[i]) {
        (if cur.len() > 0 {
            seq![cur]
        } else {
            Seq::empty()
        }) + words_from(s, i + 1, Seq::empty())
    } else {
        words_from(s, i + 1, cur.push(s[i]))
    }
}

/// The maximal runs of characters of `s` that are not ASCII whitespace.
pub open spec fn words(s: Seq<char>) -> Seq<Seq<char>> {
    words_from(s, 0, Seq::empty())
}

/// The index of the first space of `s` at or after `i`.
pub open spec fn first_space_from(s: Seq<char>, i: int) -> Option<int>
    decreases s.len() - i,
{
    if i >= s.len() || i < 0 {
        None
    } else if s[i] == ' ' {
        Some(i)
    } else {
        first_space_from(s, i + 1)
    }
}

/// `s` split after its first space.
pub open spec fn split_after_space(s: Seq<char>) -> Option<(Seq<char>, Seq<char>)> {
    match first_space_from(s, 0) {
        Some(i) => Some((s.subrange(0, i + 1), s.subrange(i + 1, s.len() as int))),
        None => None,
    }
}

/// The request that a line holds, if it is well-formed.
pub open spec fn parse_spec(s: Seq<char>) -> Option<KvsCommandView> {
    match split_after_space(s) {
        Some((head, rest)) => {
            let w = words(rest);
            if head == seq!['s', 'e', 't', ' '] && w.len() == 2 {
                Some(KvsCommandView::Put(w[0], w[1]))
            } else if head == seq!['g', 'e', 't', ' '] && w.len() == 1 {
                Some(KvsCommandView::Get(w[0]))
            } else if head == seq!['r', 'm', ' '] && w.len() == 1 {
                Some(KvsCommandView::Remove(w[0]))
            } else {
                None
            }
        },
        None => None,
    }
}

/// Splits `string` just after its first space: the head with the space, and
/// the rest. `None` where there is no space.
pub fn parse_until_whitespace(string: &str) -> (r: Option<(String, String)>)
    ensures
        match r {
            Some((head, rest)) => split_after_space(string@) == Some((head@, rest@)),
            None => split_after_space(string@) is None,
        },
{
    let cs = chars_of(string);
    let mut i: usize = 0;
    while i < cs.len()
        invariant
            cs@ == string@,
            0 <= i <= cs@.len(),
            first_space_from(cs@, 0) == first_space_from(cs@, i as int),
        decreases cs@.len() - i,
    {
        if cs[i] == ' ' {
            let head = string_of(&cs, 0, i + 1);
            let rest = string_of(&cs, i + 1, cs.len());
            return Some((head, rest));
        }
        i = i + 1;
    }
    None
}

/// The words of `s`, separated by ASCII whitespace.
pub fn split_words(s: &str) -> (r: Vec<String>)
    ensures
        r@.map_values(|w: String| w@) == words(s@),
{
    let cs = chars_of(s);
    let mut out: Vec<String> = Vec::new();
    let mut cur: Vec<char> = Vec::new();
    let mut i: usize = 0;
    while i < cs.len()
        invariant
            cs@ == s@,
            0 <= i <= cs@.len(),
            out@.map_values(|w: String| w@) + words_from(cs@, i as int, cur@) == words(cs@),
        decreases cs@.len() - i,
    {
        let c = cs[i];
        let ghost before = out@.map_values(|w: String| w@);
        if c == ' ' || c == '\t' || c == '\n' || c == '\x0C' || c == '\r' {
            if cur.len() > 0 {
                let ghost w = cur@;
                let done = string_of(&cur, 0, cur.len());
                assert(cur@.subrange(0, cur@.len() as int) =~= cur@);
                out.push(done);
                assert(out@.map_values(|w: String| w@) =~= before.push(w));
                assert(before + (seq![w] + words_from(cs@, i + 1, Seq::empty())) =~= before.push(w)
                    + words_from(cs@, i + 1, Seq::empty()));
            } else {
                assert(Seq::<Seq<char>>::empty() + words_from(cs@, i + 1, Seq::empty()) =~= words_from(cs@, i + 1, Seq::empty()));
            }
            cur = Vec::new();
        } else {
            cur.push(c);
        }
        i = i + 1;
    }
    if cur.len() > 0 {
        let ghost before = out@.map_values(|w: String| w@);
        let ghost w = cur@;
        let done = string_of(&cur, 0, cur.len());
        assert(cur@.subrange(0, cur@.len() as int) =~= cur@);
        out.push(done);
        assert(out@.map_values(|w: String| w@) =~= before.push(w));
        assert(before + seq![w] =~= before.push(w));
    } else {
        assert(out@.map_values(|w: String| w@) + Seq::<Seq<char>>::empty() =~= out@.map_values(|w: String| w@));
    }
    out
}

/// Parses a request line: `set <key> <value>`, `get <key>` or `rm <key>`,
/// the command word followed by one space and then exactly the words that the
/// command takes.
pub fn parse_command(string: &str) -> (r: Option<KvsCommand>)
    ensures
        match r {
            Some(c) => parse_spec(string@) == Some(c@),
            None => parse_spec(string@) is None,
        },
{
    match parse_until_whitespace(string) {
        None => None,
        Some((head, rest)) => {
            let hs = chars_of(head.as_str());
            let mut w = split_words(rest.as_str());
            let ghost ws = w@.map_values(|x: String| x@);
            assert(ws.len() == w@.len());
            let is_set = hs.len() == 4 && hs[0] == 's' && hs[1] == 'e' && hs[2] == 't' && hs[3] == ' ';
            let is_get = hs.len() == 4 && hs[0] == 'g' && hs[1] == 'e' && hs[2] == 't' && hs[3] == ' ';
            let is_rm = hs.len() == 3 && hs[0] == 'r' && hs[1] == 'm' && hs[2] == ' ';
            proof {
                assert(is_set <==> hs@ =~= seq!['s', 'e', 't', ' ']);
                assert(is_get <==> hs@ =~= seq!['g', 'e', 't', ' ']);
                assert(is_rm <==> hs@ =~= seq!['r', 'm', ' ']);
            }
            if is_set && w.len() == 2 {
                let value = w.pop().unwrap();
                let key = w.pop().unwrap();
                assert(key@ == ws[0] && value@ == ws[1]);
                Some(KvsCommand::Put(key, value))
            } else if is_get && w.len() == 1 {
                let key = w.pop().unwrap();
                assert(key@ == ws[0]);
                Some(KvsCommand::Get(key))
            } else if is_rm && w.len() == 1 {
                let key = w.pop().unwrap();
                assert(key@ == ws[0]);
                Some(KvsCommand::Remove(key))
            } else {
                None
            }
        },
    }
}

/// What answering request `cmd` against an engine holding `before` may give:
/// the response, and what the engine holds after (`after`).
pub open spec fn answered(
    before: Map<Seq<char>, Seq<char>>,
    after: Map<Seq<char>, Seq<char>>,
    cmd: Option<KvsCommandView>,
    r: Result<KvsResponse, KvsError>,
) -> bool {
    match cmd {
        None => (r matches Ok(KvsResponse::Success)) && after == before,
        Some(KvsCommandView::Put(k, v)) => r is Ok ==> ((r matches Ok(KvsResponse::Success))
            && after == before.insert(k, v)),
        Some(KvsCommandView::Get(k)) => {
            &&& after == before
            &&& r is Ok ==> ((r matches Ok(KvsResponse::Message(_))) || (r matches Ok(
                KvsResponse::NotFound,
            )))
            &&& r matches Ok(KvsResponse::Message(v)) ==> before.contains_key(k) && before[k]
                == v@
            &&& r matches Ok(KvsResponse::NotFound) ==> !before.contains_key(k)
        },
        Some(KvsCommandView::Remove(k)) => {
            &&& (r matches Ok(KvsResponse::Success)) || (r matches Ok(KvsResponse::BadNotFound))
            &&& r matches Ok(KvsResponse::Success) ==> before.contains_key(k) && after
                == before.remove(k)
            &&& !before.contains_key(k) ==> r matches Ok(KvsResponse::BadNotFound)
        },
    }
}

/// The response to a `set` request, from what the engine's `set` returned.
pub fn set_response(res: Result<(), KvsError>) -> (r: Result<KvsResponse, KvsError>)
    ensures
        res is Ok <==> (r matches Ok(KvsResponse::Success)),
        res matches Err(e) ==> r == Err::<KvsResponse, KvsError>(e),
{
    match res {
        Ok(()) => Ok(KvsResponse::Success),
        Err(e) => Err(e),
    }
}

/// The response to a `get` request, from what the engine's `get` returned.
pub fn get_response(res: Result<Option<String>, KvsError>) -> (r: Result<KvsResponse, KvsError>)
    ensures
        match res {
            Ok(Some(s)) => r matches Ok(KvsResponse::Message(m)) && m@ == s@,
            Ok(None) => r matches Ok(KvsResponse::NotFound),
            Err(e) => r == Err::<KvsResponse, KvsError>(e),
        },
{
    match res {
        Ok(Some(s)) => Ok(KvsResponse::Message(s)),
        Ok(None) => Ok(KvsResponse::NotFound),
        Err(e) => Err(e),
    }
}

/// The response to an `rm` request, from what the engine's `remove`
/// returned: any error is answered `BadNotFound`.
pub fn remove_response(res: Result<(), KvsError>) -> (r: KvsResponse)
    ensures
        res is Ok <==> r is Success,
        res is Err <==> r is BadNotFound,
{
    match res {
        Ok(()) => KvsResponse::Success,
        Err(_) => KvsResponse::BadNotFound,
    }
}

/// What an engine owes a request: success where nothing outside decides it,
/// only its own errors otherwise, and for an engine that decides its errors
/// itself, nothing changed by a failed `rm`.
pub open spec fn answer_owed<E: KvsEngine>(
    engine: E,
    after: Map<Seq<char>, Seq<char>>,
    cmd: Option<KvsCommandView>,
    r: Result<KvsResponse, KvsError>,
) -> bool {
    match cmd {
        None => true,
        Some(KvsCommandView::Put(k, v)) => {
            &&& engine.set_owed(k, v) ==> (r matches Ok(KvsResponse::Success))
            &&& r matches Err(e) ==> engine.allowed_error(e)
            &&& engine.exact_errors() && r is Err ==> after == engine.entries()
        },
        Some(KvsCommandView::Get(k)) => {
            &&& engine.get_owed(k) ==> r is Ok
            &&& r matches Err(e) ==> engine.allowed_error(e)
        },
        Some(KvsCommandView::Remove(k)) => {
            &&& engine.remove_owed(k) ==> (r matches Ok(KvsResponse::Success))
            &&& engine.exact_errors() && (r matches Ok(KvsResponse::BadNotFound)) ==> after
                == engine.entries()
        },
    }
}

/// Answers one request line against `engine`. A line that is not a request
/// is answered `Success` and changes nothing; a failed `rm` is answered
/// `BadNotFound`; other engine errors are returned.
pub fn execute_line<E: KvsEngine>(engine: &mut E, line: &str) -> (r: Result<
    KvsResponse,
    KvsError,
>)
    requires
        old(engine).ready(),
    ensures
        final(engine).ready(),
        answered(old(engine).entries(), final(engine).entries(), parse_spec(line@), r),
        answer_owed(*old(engine), final(engine).entries(), parse_spec(line@), r),
{
    match parse_command(line) {
        None => Ok(KvsResponse::Success),
        Some(KvsCommand::Put(key, value)) => set_response(engine.set(key, value)),
        Some(KvsCommand::Get(key)) => get_response(engine.get(key)),
        Some(KvsCommand::Remove(key)) => Ok(remove_response(engine.remove(key))),
    }
}

/// Whether `c` has the Unicode White_Space property.
pub open spec fn unicode_white_space(c: char) -> bool {
    ||| '\u{9}' <= c <= '\u{d}'
    ||| c == ' '
    ||| c == '\u{85}'
    ||| c == '\u{a0}'
    ||| c == '\u{1680}'
    ||| '\u{2000}' <= c <= '\u{200a}'
    ||| c == '\u{2028}'
    ||| c == '\u{2029}'
    ||| c == '\u{202f}'
    ||| c == '\u{205f}'
    ||| c == '\u{3000}'
}

/// `s` without its trailing run of white space.
pub open spec fn trim_end_of(s: Seq<char>) -> Seq<char>
    decreases s.len(),
{
    if s.len() > 0 && unicode_white_space(s.last()) {
        trim_end_of(s.drop_last())
    } else {
        s
    }
}

/// Relies on `str::trim_end`: it removes the trailing characters that have
/// the White_Space property.
#[verifier::external_body]
fn trim_end<'a>(s: &'a str) -> (r: &'a str)
    ensures
        r@ == trim_end_of(s@),
{
    s.trim_end()
}

/// Answers one request as the server receives it: its trailing whitespace is
/// dropped, then the line is answered as `execute_line` does.
pub fn execute_command<E: KvsEngine>(engine: &mut E, buffer: &str) -> (r: Result<
    KvsResponse,
    KvsError,
>)
    requires
        old(engine).ready(),
    ensures
        final(engine).ready(),
        answered(
            old(engine).entries(),
            final(engine).entries(),
            parse_spec(trim_end_of(buffer@)),
            r,
        ),
        answer_owed(*old(engine), final(engine).entries(), parse_spec(trim_end_of(buffer@)), r),
{
    let line = trim_end(buffer);
    execute_line(engine, line)
}

} // verus!
