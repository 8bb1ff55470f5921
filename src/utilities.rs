//! The names of the files in a data directory: segment file names, their ids,
//! and which engine a directory belongs to.
use crate::enums::{kvs_name, KvsEngineType, KVS_EXT};
use crate::errors::MismatchEngine;
use crate::text::{chars_of, push_char, str_eq};
use vstd::prelude::*;

verus! {

broadcast use vstd::seq_lib::to_multiset_build, vstd::seq_lib::to_multiset_insert;

/// The decimal digit for `d`, below ten.
pub open spec fn digit_char(d: nat) -> char {
    if d == 0 { '0' }
    else if d == 1 { '1' }
    else if d == 2 { '2' }
    else if d == 3 { '3' }
    else if d == 4 { '4' }
    else if d == 5 { '5' }
    else if d == 6 { '6' }
    else if d == 7 { '7' }
    else if d == 8 { '8' }
    else { '9' }
}

/// The value of a decimal digit character.
pub open spec fn digit_value(c: char) -> int {
    c as int - '0' as int
}

/// Whether `c` is a decimal digit.
pub open spec fn is_digit(c: char) -> bool {
    '0' <= c <= '9'
}

/// `n` written in decimal, without leading zeros.
pub open spec fn decimal(n: nat) -> Seq<char>
    decreases n,
{
    if n < 10 {
        seq![digit_char(n)]
    } else {
        decimal(n / 10).push(digit_char(n % 10))
    }
}

/// The number that a sequence of decimal digits writes.
pub open spec fn digits_value(ds: Seq<char>) -> nat
    decreases ds.len(),
{
    if ds.len() == 0 {
        0
    } else {
        (digits_value(ds.drop_last()) * 10 + digit_value(ds.last())) as nat
    }
}

/// Whether `name` ends with `.` and the extension `ext`, after a non-empty stem.
pub open spec fn has_extension(name: Seq<char>, ext: Seq<char>) -> bool {
    &&& name.len() > ext.len() + 1
    &&& name.subrange(name.len() - ext.len() - 1, name.len() as int) == seq!['.'] + ext
}

/// The stem of a name with extension `ext`.
pub open spec fn stem(name: Seq<char>, ext: Seq<char>) -> Seq<char> {
    name.subrange(0, name.len() - ext.len() - 1)
}

/// The segment id that a file name gives: a stem of decimal digits, then `.`
/// and the extension.
pub open spec fn log_id(name: Seq<char>, ext: Seq<char>) -> Option<nat> {
    if has_extension(name, ext) && forall|i: int|
        0 <= i < stem(name, ext).len() ==> is_digit(#[trigger] stem(name, ext)[i]) {
        Some(digits_value(stem(name, ext)))
    } else {
        None
    }
}

/// The names that have extension `ext`, in order.
pub open spec fn names_with_ext(names: Seq<Seq<char>>, ext: Seq<char>) -> Seq<Seq<char>>
    decreases names.len(),
{
    if names.len() == 0 {
        Seq::empty()
    } else {
        let init = names_with_ext(names.drop_last(), ext);
        if has_extension(names.last(), ext) {
            init.push(names.last())
        } else {
            init
        }
    }
}

/// The segment files among `names`, as (id, name), in the order of `names`.
pub open spec fn valid_logs(names: Seq<Seq<char>>, ext: Seq<char>) -> Seq<(u64, Seq<char>)>
    decreases names.len(),
{
    if names.len() == 0 {
        Seq::empty()
    } else {
        let init = valid_logs(names.drop_last(), ext);
        match log_id(names.last(), ext) {
            Some(v) => if v <= u64::MAX {
                init.push((v as u64, names.last()))
            } else {
                init
            },
            None => init,
        }
    }
}

/// A segment file of a directory: its id and its file name.
#[derive(Debug)]
pub struct LogFile {
    pub id: u64,
    pub name: String,
}

impl View for LogFile {
    type V = (u64, Seq<char>);

    open spec fn view(&self) -> (u64, Seq<char>) {
        (self.id, self.name@)
    }
}

/// The views of the strings.
pub open spec fn views(names: Seq<String>) -> Seq<Seq<char>> {
    names.map_values(|s: String| s@)
}

/// The name of the segment file with id `id`: the id in decimal, `.`, and the
/// extension.
pub fn get_log_name(extension: &str, id: u64) -> (r: String)
    ensures
        r@ == decimal(id as nat) + seq!['.'] + extension@,
{
    let mut digits: Vec<char> = Vec::new();
    let mut n = id;
    loop
        invariant_except_break
            n > 0 || digits@.len() == 0,
            decimal(id as nat) == if n > 0 || digits@.len() == 0 {
                decimal(n as nat) + digits@
            } else {
                digits@
            },
        ensures
            decimal(id as nat) == digits@,
        decreases n,
    {
        let d = n % 10;
        let c = if d == 0 { '0' }
            else if d == 1 { '1' }
            else if d == 2 { '2' }
            else if d == 3 { '3' }
            else if d == 4 { '4' }
            else if d == 5 { '5' }
            else if d == 6 { '6' }
            else if d == 7 { '7' }
            else if d == 8 { '8' }
            else { '9' };
        assert(c == digit_char(d as nat));
        let ghost before = digits@;
        digits.insert(0, c);
        assert(digits@ =~= seq![c] + before);
        let ghost m = n;
        n = n / 10;
        assert(decimal(m as nat) == if m < 10 { seq![c] } else { decimal(n as nat).push(c) });
        if n == 0 {
            assert(decimal(m as nat) + before =~= digits@);
            break;
        }
        assert(decimal(n as nat).push(c) + before =~= decimal(n as nat) + digits@);
    }
    let mut s = String::new();
    let mut i: usize = 0;
    while i < digits.len()
        invariant
            0 <= i <= digits@.len(),
            s@ == digits@.subrange(0, i as int),
        decreases digits@.len() - i,
    {
        push_char(&mut s, digits[i]);
        i = i + 1;
        assert(s@ =~= digits@.subrange(0, i as int));
    }
    push_char(&mut s, '.');
    let ext = chars_of(extension);
    let ghost before = s@;
    let mut j: usize = 0;
    while j < ext.len()
        invariant
            0 <= j <= ext@.len(),
            s@ == before + ext@.subrange(0, j as int),
        decreases ext@.len() - j,
    {
        push_char(&mut s, ext[j]);
        j = j + 1;
        assert(s@ =~= before + ext@.subrange(0, j as int));
    }
    assert(digits@.subrange(0, digits@.len() as int) =~= digits@);
    assert(ext@.subrange(0, ext@.len() as int) =~= ext@);
    s
}

/// Whether the name has extension `ext`.
fn name_has_extension(name: &Vec<char>, ext: &Vec<char>) -> (r: bool)
    ensures
        r == has_extension(name@, ext@),
{
    if name.len() <= ext.len() || name.len() - ext.len() < 2 {
        return false;
    }
    let start = name.len() - ext.len() - 1;
    if name[start] != '.' {
        assert(name@.subrange(start as int, name@.len() as int)[0] != (seq!['.'] + ext@)[0]);
        return false;
    }
    let mut i: usize = 0;
    while i < ext.len()
        invariant
            start + 1 + ext@.len() == name@.len(),
            name@.len() <= usize::MAX,
            0 <= i <= ext@.len(),
            name@[start as int] == '.',
            forall|j: int| 0 <= j < i ==> name@[start + 1 + j] == ext@[j],
        decreases ext@.len() - i,
    {
        if name[start + 1 + i] != ext[i] {
            assert(name@.subrange(start as int, name@.len() as int)[i + 1] != (seq!['.'] + ext@)[i + 1]);
            return false;
        }
        i = i + 1;
    }
    assert(name@.subrange(start as int, name@.len() as int) =~= seq!['.'] + ext@);
    true
}

/// The segment id that `name` gives with extension `extension`: `None` where
/// the name is not a decimal stem with that extension, or the id passes
/// `u64::MAX`.
pub fn parse_log_name(name: &str, extension: &str) -> (r: Option<u64>)
    ensures
        match r {
            Some(v) => log_id(name@, extension@) == Some(v as nat),
            None => log_id(name@, extension@) is None || log_id(name@, extension@)->0 > u64::MAX,
        },
{
    let cs = chars_of(name);
    let ext = chars_of(extension);
    if !name_has_extension(&cs, &ext) {
        return None;
    }
    let n = cs.len() - ext.len() - 1;
    let ghost st = stem(cs@, ext@);
    let mut v: u64 = 0;
    let mut i: usize = 0;
    while i < n
        invariant
            st == cs@.subrange(0, n as int),
            st == stem(name@, extension@),
            has_extension(name@, extension@),
            n == st.len(),
            n <= cs@.len(),
            0 <= i <= n,
            forall|j: int| 0 <= j < i ==> is_digit(#[trigger] st[j]),
            v == digits_value(st.subrange(0, i as int)),
        decreases n - i,
    {
        let c = cs[i];
        if !('0' <= c && c <= '9') {
            assert(!is_digit(stem(name@, extension@)[i as int]));
            return None;
        }
        let d = (c as u32 - '0' as u32) as u64;
        proof {
            assert(st.subrange(0, i + 1).drop_last() =~= st.subrange(0, i as int));
            assert(st.subrange(0, i + 1).last() == c);
        }
        if v > (u64::MAX - d) / 10 {
            proof {
                assert(digits_value(st.subrange(0, i + 1)) > u64::MAX) by (nonlinear_arith)
                    requires
                        v > (u64::MAX - d) / 10,
                        digits_value(st.subrange(0, i + 1)) == v * 10 + d,
                ;
                if forall|j: int| 0 <= j < st.len() ==> is_digit(#[trigger] st[j]) {
                    lemma_digits_value_prefix(st, i + 1);
                } else {
                    let j = choose|j: int| 0 <= j < st.len() && !is_digit(#[trigger] st[j]);
                    assert(!is_digit(stem(name@, extension@)[j]));
                }
            }
            return None;
        }
        v = v * 10 + d;
        i = i + 1;
    }
    assert(st.subrange(0, n as int) =~= st);
    Some(v)
}

/// The value of a run of digits is at least the value of any of its prefixes.
proof fn lemma_digits_value_prefix(ds: Seq<char>, k: int)
    requires
        0 <= k <= ds.len(),
        forall|j: int| 0 <= j < ds.len() ==> is_digit(#[trigger] ds[j]),
    ensures
        digits_value(ds.subrange(0, k)) <= digits_value(ds),
    decreases ds.len(),
{
    if k < ds.len() {
        let init = ds.drop_last();
        assert forall|j: int| 0 <= j < init.len() implies is_digit(#[trigger] init[j]) by {
            assert(init[j] == ds[j]);
        }
        lemma_digits_value_prefix(init, k);
        assert(init.subrange(0, k) =~= ds.subrange(0, k));
        assert(is_digit(ds.last()));
    } else {
        assert(ds.subrange(0, k) =~= ds);
    }
}

/// The names among `names` that have extension `extension`, in order.
pub fn get_log_files(extension: &str, names: &Vec<String>) -> (r: Vec<String>)
    ensures
        views(r@) == names_with_ext(views(names@), extension@),
{
    let ext = chars_of(extension);
    let mut out: Vec<String> = Vec::new();
    let mut i: usize = 0;
    while i < names.len()
        invariant
            ext@ == extension@,
            0 <= i <= names@.len(),
            views(out@) == names_with_ext(views(names@.subrange(0, i as int)), extension@),
        decreases names@.len() - i,
    {
        let cs = chars_of(names[i].as_str());
        let ghost before = views(out@);
        proof {
            let sub = views(names@.subrange(0, i + 1));
            assert(sub.drop_last() =~= views(names@.subrange(0, i as int)));
            assert(sub.last() == names@[i as int]@);
        }
        if name_has_extension(&cs, &ext) {
            out.push(names[i].clone());
            assert(views(out@) =~= before.push(names@[i as int]@));
        }
        i = i + 1;
    }
    assert(names@.subrange(0, names@.len() as int) =~= names@);
    out
}

/// Whether the ids ascend, equal ones allowed.
pub open spec fn ids_sorted(files: Seq<(u64, Seq<char>)>) -> bool {
    forall|a: int, b: int| 0 <= a < b < files.len() ==> (#[trigger] files[a]).0 <= (#[trigger] files[b]).0
}

/// The views of the log files.
pub open spec fn file_views(files: Seq<LogFile>) -> Seq<(u64, Seq<char>)> {
    files.map_values(|f: LogFile| f@)
}

/// The segment files among `names` (a decimal id, then `.` and `extension`),
/// ordered by ascending id.
pub fn sorted_log_files(extension: &str, names: &Vec<String>) -> (r: Vec<LogFile>)
    ensures
        ids_sorted(file_views(r@)),
        file_views(r@).to_multiset() == valid_logs(views(names@), extension@).to_multiset(),
{
    let mut out: Vec<LogFile> = Vec::new();
    let mut i: usize = 0;
    proof {
        assert(file_views(out@) =~= Seq::<(u64, Seq<char>)>::empty());
        assert(views(names@.subrange(0, 0)) =~= Seq::<Seq<char>>::empty());
    }
    while i < names.len()
        invariant
            0 <= i <= names@.len(),
            ids_sorted(file_views(out@)),
            file_views(out@).to_multiset() == valid_logs(views(names@.subrange(0, i as int)), extension@).to_multiset(),
        decreases names@.len() - i,
    {
        let ghost before = file_views(out@);
        let ghost sub = views(names@.subrange(0, i + 1));
        proof {
            assert(sub.drop_last() =~= views(names@.subrange(0, i as int)));
            assert(sub.last() == names@[i as int]@);
        }
        match parse_log_name(names[i].as_str(), extension) {
            Some(id) => {
                let mut p: usize = 0;
                while p < out.len() && out[p].id <= id
                    invariant
                        0 <= p <= out@.len(),
                        forall|a: int| 0 <= a < p ==> (#[trigger] out@[a]).id <= id,
                    decreases out@.len() - p,
                {
                    p = p + 1;
                }
                let f = LogFile { id, name: names[i].clone() };
                out.insert(p, f);
                proof {
                    assert(file_views(out@) =~= before.insert(p as int, (id, names@[i as int]@)));
                    assert(valid_logs(sub, extension@) == valid_logs(views(names@.subrange(0, i as int)), extension@).push((id, names@[i as int]@)));
                    assert forall|a: int, b: int| 0 <= a < b < out@.len() implies (#[trigger] file_views(out@)[a]).0 <= (#[trigger] file_views(out@)[b]).0 by {
                        if b < p {
                        } else if b == p {
                            assert(file_views(out@)[a] == before[a]);
                        } else if a < p {
                            assert(file_views(out@)[a] == before[a]);
                            assert(file_views(out@)[b] == before[b - 1]);
                            if p < before.len() {
                                assert(before[a].0 <= before[p as int].0);
                            }
                        } else if a == p {
                            assert(file_views(out@)[b] == before[b - 1]);
                            assert(before[p as int].0 > id);
                            if b - 1 > p {
                                assert(before[p as int].0 <= before[b - 1].0);
                            }
                        } else {
                            assert(file_views(out@)[a] == before[a - 1]);
                            assert(file_views(out@)[b] == before[b - 1]);
                        }
                    }
                }
            },
            None => {},
        }
        i = i + 1;
    }
    assert(names@.subrange(0, names@.len() as int) =~= names@);
    out
}

/// The segment files of the log-structured engine among `names`, by ascending id.
pub fn get_sorted_kvs_log_files(names: &Vec<String>) -> (r: Vec<LogFile>)
    ensures
        ids_sorted(file_views(r@)),
        file_views(r@).to_multiset() == valid_logs(views(names@), kvs_name()).to_multiset(),
{
    proof {
        reveal_strlit("kvs");
        assert(KVS_EXT@ =~= kvs_name());
    }
    sorted_log_files(KVS_EXT, names)
}

/// Whether `name` is `is_not`: the name that a check looks for.
pub fn check_pathbuf_is_not(name: &str, is_not: &str) -> (r: bool)
    ensures
        r == (name@ == is_not@),
{
    str_eq(name, is_not)
}

/// The characters `conf`.
pub open spec fn conf_name() -> Seq<char> {
    seq!['c', 'o', 'n', 'f']
}

/// The characters `db`.
pub open spec fn db_name() -> Seq<char> {
    seq!['d', 'b']
}

/// Whether a directory holds the embedded engine's files: both `conf` and `db`.
pub open spec fn holds_sled(names: Seq<Seq<char>>) -> bool {
    names.contains(conf_name()) && names.contains(db_name())
}

/// Whether `names` hold the embedded engine's files, `conf` and `db`.
pub fn sled_log_files_exist(names: &Vec<String>) -> (r: bool)
    ensures
        r == holds_sled(views(names@)),
{
    let mut conf = false;
    let mut db = false;
    let mut i: usize = 0;
    proof {
        reveal_strlit("conf");
        reveal_strlit("db");
    }
    while i < names.len()
        invariant
            0 <= i <= names@.len(),
            conf <==> exists|j: int| 0 <= j < i && (#[trigger] names@[j])@ == conf_name(),
            db <==> exists|j: int| 0 <= j < i && (#[trigger] names@[j])@ == db_name(),
        decreases names@.len() - i,
    {
        proof {
            reveal_strlit("conf");
            reveal_strlit("db");
            assert("conf"@ =~= conf_name());
            assert("db"@ =~= db_name());
        }
        if check_pathbuf_is_not(names[i].as_str(), "conf") {
            conf = true;
        }
        if check_pathbuf_is_not(names[i].as_str(), "db") {
            db = true;
        }
        i = i + 1;
    }
    proof {
        let vs = views(names@);
        if conf {
            let j = choose|j: int| 0 <= j < names@.len() && (#[trigger] names@[j])@ == conf_name();
            assert(vs[j] == conf_name());
        }
        if vs.contains(conf_name()) {
            let j = choose|j: int| 0 <= j < vs.len() && vs[j] == conf_name();
            assert(names@[j]@ == conf_name());
        }
        if db {
            let j = choose|j: int| 0 <= j < names@.len() && (#[trigger] names@[j])@ == db_name();
            assert(vs[j] == db_name());
        }
        if vs.contains(db_name()) {
            let j = choose|j: int| 0 <= j < vs.len() && vs[j] == db_name();
            assert(names@[j]@ == db_name());
        }
    }
    conf && db
}

/// Whether a directory holds files of the other engine than `engine`.
pub open spec fn foreign_files(engine: KvsEngineType, names: Seq<Seq<char>>) -> bool {
    match engine {
        KvsEngineType::KvStore => holds_sled(names),
        KvsEngineType::Sled => names_with_ext(names, kvs_name()).len() > 0,
    }
}

/// Checks, before anything is opened or written, that a directory with these
/// file names does not belong to the other engine.
pub fn check_engine_dir(engine: KvsEngineType, names: &Vec<String>) -> (r: Result<(), MismatchEngine>)
    ensures
        r is Err <==> foreign_files(engine, views(names@)),
{
    proof {
        reveal_strlit("kvs");
        assert(KVS_EXT@ =~= kvs_name());
    }
    match engine {
        KvsEngineType::KvStore => {
            if sled_log_files_exist(names) {
                let mut found: Vec<String> = Vec::new();
                found.push(String::from_str("conf"));
                found.push(String::from_str("db"));
                Err(MismatchEngine(String::from_str(KVS_EXT), found))
            } else {
                Ok(())
            }
        },
        KvsEngineType::Sled => {
            let files = get_log_files(KVS_EXT, names);
            if files.len() > 0 {
                Err(MismatchEngine(String::from_str(crate::enums::SLED_EXT), files))
            } else {
                Ok(())
            }
        },
    }
}

} // verus!
