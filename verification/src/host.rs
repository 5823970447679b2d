//! Which machine produced the number: the CPU model and last-level cache
//! size, read out of the text that Linux (`/proc/cpuinfo`, sysfs) and Windows
//! (`reg query`, CIM) report them in. Reading that text is the caller's part;
//! no value here is ever hardcoded.

use vstd::prelude::*;
use vstd::string::StrSliceExecFns;
use crate::text::{
    is_white, lemma_line_end_bounds, occurs_at,
    chars_of, contains_pat, find_from, find_in_range, find_line_end, first_line, first_line_from,
    occurs_in_range, parse_usize_in, parse_usize_spec, starts_with, trim, trim_bounds,
};

verus! {

broadcast use vstd::string::group_string_axioms;

/// `model name`, the key of the CPU model's line in `/proc/cpuinfo`.
pub open spec fn model_name_key() -> Seq<char> {
    seq!['m', 'o', 'd', 'e', 'l', ' ', 'n', 'a', 'm', 'e']
}

/// A line of `/proc/cpuinfo` that starts with `model name`.
pub open spec fn is_model_name_line() -> spec_fn(Seq<char>) -> bool {
    |l: Seq<char>| starts_with(l, model_name_key())
}

/// The CPU model that `/proc/cpuinfo` text names: on its first line that
/// starts with `model name`, what follows the first `':'`, trimmed. `None`
/// when there is no such line, or that line has no `':'`.
pub open spec fn cpuinfo_model(text: Seq<char>) -> Option<Seq<char>> {
    match first_line(text, is_model_name_line()) {
        Some(line) => match find_from(line, seq![':'], 0) {
            Some(k) => Some(trim(line.skip(k + 1 as int))),
            None => None,
        },
        None => None,
    }
}

/// `ProcessorNameString`, the registry value that holds the CPU model.
pub open spec fn processor_name_key() -> Seq<char> {
    seq![
        'P', 'r', 'o', 'c', 'e', 's', 's', 'o', 'r', 'N', 'a', 'm', 'e', 'S', 't', 'r', 'i', 'n', 'g',
    ]
}

/// `REG_SZ`, the registry's string type, which separates a value's name from
/// its data in `reg query` output.
pub open spec fn reg_sz() -> Seq<char> {
    seq!['R', 'E', 'G', '_', 'S', 'Z']
}

/// A line of `reg query` output that mentions `ProcessorNameString`.
pub open spec fn is_processor_name_line() -> spec_fn(Seq<char>) -> bool {
    |l: Seq<char>| contains_pat(l, processor_name_key())
}

/// The CPU model that `reg query` output names: on its first line that
/// contains `ProcessorNameString`, the text between the first `REG_SZ` and the
/// next one (or the end of the line), trimmed; `None` when there is no such
/// line, that line has no `REG_SZ`, or the text is empty once trimmed.
pub open spec fn registry_model(text: Seq<char>) -> Option<Seq<char>> {
    match first_line(text, is_processor_name_line()) {
        Some(line) => match find_from(line, reg_sz(), 0) {
            Some(k) => {
                let start = k + reg_sz().len();
                let end = match find_from(line, reg_sz(), start) {
                    Some(q) => q,
                    None => line.len(),
                };
                let v = trim(line.subrange(start as int, end as int));
                if v.len() > 0 {
                    Some(v)
                } else {
                    None
                }
            },
            None => None,
        },
        None => None,
    }
}

/// `s` without any run of `c` at its end, as `str::trim_end_matches(c)` leaves it.
pub open spec fn strip_trailing(s: Seq<char>, c: char) -> Seq<char>
    decreases s.len(),
{
    if s.len() > 0 && s.last() == c {
        strip_trailing(s.drop_last(), c)
    } else {
        s
    }
}

/// `num` parsed as a `usize` and multiplied by `mult`; `None` when it does not
/// parse, or the product does not fit in a `usize`.
pub open spec fn scaled_size(num: Seq<char>, mult: nat) -> Option<usize> {
    match parse_usize_spec(num) {
        Some(n) => if n * mult <= usize::MAX {
            Some((n * mult) as usize)
        } else {
            None
        },
        None => None,
    }
}

/// The size in bytes that a sysfs cache `size` file holds: a number, trimmed,
/// with an optional unit `K`, `M` or `G` (powers of 1024); every copy of the
/// unit at the end is dropped before the number is read.
pub open spec fn sysfs_cache_size(raw: Seq<char>) -> Option<usize> {
    let t = trim(raw);
    if t.len() > 0 && t.last() == 'K' {
        scaled_size(strip_trailing(t, 'K'), 1024)
    } else if t.len() > 0 && t.last() == 'M' {
        scaled_size(strip_trailing(t, 'M'), 1024 * 1024)
    } else if t.len() > 0 && t.last() == 'G' {
        scaled_size(strip_trailing(t, 'G'), 1024 * 1024 * 1024)
    } else {
        scaled_size(t, 1)
    }
}

/// The last-level cache size that Windows' CIM reports: the output, trimmed,
/// is a number of KiB.
pub open spec fn cim_cache_size(text: Seq<char>) -> Option<usize> {
    scaled_size(trim(text), 1024)
}

/// The CPU model named in the text of `/proc/cpuinfo`.
pub fn cpu_model_from_cpuinfo(text: &str) -> (r: Option<String>)
    ensures
        match r {
            Some(m) => cpuinfo_model(text@) == Some(m@),
            None => cpuinfo_model(text@) is None,
        },
        r matches Some(m) ==> {
            &&& m@.len() > 0 ==> !is_white(m@[0]) && !is_white(m@.last())
            &&& forall|k: int| 0 <= k < m@.len() ==> #[trigger] m@[k] != '\n'
            &&& exists|a: int| #[trigger] occurs_at(text@, m@, a)
        },
{
    let s = chars_of(text);
    let key: [char; 10] = ['m', 'o', 'd', 'e', 'l', ' ', 'n', 'a', 'm', 'e'];
    let colon: [char; 1] = [':'];
    assert(key@ =~= model_name_key());
    assert(colon@ =~= seq![':']);
    let n = s.len();
    let mut i: usize = 0;
    while i < n
        invariant
            n == s@.len(),
            s@ == text@,
            key@ == model_name_key(),
            colon@ == seq![':'],
            first_line(s@, is_model_name_line()) == first_line_from(
                s@,
                i as nat,
                is_model_name_line(),
            ),
        decreases n - i,
    {
        let e = find_line_end(s.as_slice(), i);
        let ghost line = s@.subrange(i as int, e as int);
        if occurs_in_range(s.as_slice(), i, e, &key, 0) {
            assert(first_line(s@, is_model_name_line()) == Some(line));
            match find_in_range(s.as_slice(), i, e, &colon, 0) {
                Some(k) => {
                    let (a, b) = trim_bounds(s.as_slice(), i + k + 1, e);
                    assert(line.skip(k + 1) =~= s@.subrange(i + k + 1, e as int));
                    let out = text.substring_char(a, b).to_owned();
                    proof {
                        lemma_line_end_bounds(s@, i as nat);
                        assert(occurs_at(text@, out@, a as int));
                    }
                    return Some(out);
                },
                None => {
                    return None;
                },
            }
        }
        assert(!(is_model_name_line())(line));
        assert(first_line_from(s@, i as nat, is_model_name_line()) == first_line_from(
            s@,
            (e + 1) as nat,
            is_model_name_line(),
        ));
        if e == n {
            assert(first_line_from(s@, (e + 1) as nat, is_model_name_line()) is None);
            return None;
        }
        i = e + 1;
    }
    None
}

/// The CPU model named in the output of `reg query` for the processor's
/// `ProcessorNameString`.
pub fn cpu_model_from_registry(text: &str) -> (r: Option<String>)
    ensures
        match r {
            Some(m) => registry_model(text@) == Some(m@),
            None => registry_model(text@) is None,
        },
        r matches Some(m) ==> m@.len() > 0,
        r matches Some(m) ==> {
            &&& m@.len() > 0 ==> !is_white(m@[0]) && !is_white(m@.last())
            &&& forall|k: int| 0 <= k < m@.len() ==> #[trigger] m@[k] != '\n'
            &&& exists|a: int| #[trigger] occurs_at(text@, m@, a)
        },
{
    let s = chars_of(text);
    let key: [char; 19] = [
        'P', 'r', 'o', 'c', 'e', 's', 's', 'o', 'r', 'N', 'a', 'm', 'e', 'S', 't', 'r', 'i', 'n', 'g',
    ];
    let sep: [char; 6] = ['R', 'E', 'G', '_', 'S', 'Z'];
    assert(key@ =~= processor_name_key());
    assert(sep@ =~= reg_sz());
    let n = s.len();
    let mut i: usize = 0;
    while i < n
        invariant
            n == s@.len(),
            s@ == text@,
            key@ == processor_name_key(),
            sep@ == reg_sz(),
            first_line(s@, is_processor_name_line()) == first_line_from(
                s@,
                i as nat,
                is_processor_name_line(),
            ),
        decreases n - i,
    {
        let e = find_line_end(s.as_slice(), i);
        let ghost line = s@.subrange(i as int, e as int);
        if find_in_range(s.as_slice(), i, e, &key, 0).is_some() {
            assert(first_line(s@, is_processor_name_line()) == Some(line));
            match find_in_range(s.as_slice(), i, e, &sep, 0) {
                Some(k) => {
                    let start = k + 6;
                    let end = match find_in_range(s.as_slice(), i, e, &sep, start) {
                        Some(q) => q,
                        None => e - i,
                    };
                    let (a, b) = trim_bounds(s.as_slice(), i + start, i + end);
                    assert(line.subrange(start as int, end as int) =~= s@.subrange(
                        i + start,
                        i + end,
                    ));
                    if a == b {
                        return None;
                    }
                    let out = text.substring_char(a, b).to_owned();
                    proof {
                        lemma_line_end_bounds(s@, i as nat);
                        assert(occurs_at(text@, out@, a as int));
                    }
                    return Some(out);
                },
                None => {
                    return None;
                },
            }
        }
        assert(!(is_processor_name_line())(line));
        assert(first_line_from(s@, i as nat, is_processor_name_line()) == first_line_from(
            s@,
            (e + 1) as nat,
            is_processor_name_line(),
        ));
        if e == n {
            assert(first_line_from(s@, (e + 1) as nat, is_processor_name_line()) is None);
            return None;
        }
        i = e + 1;
    }
    None
}

/// `s[from..to]` parsed as a `usize` and multiplied by `mult`.
fn scaled_size_in(s: &[char], from: usize, to: usize, mult: usize) -> (r: Option<usize>)
    requires
        from <= to <= s@.len(),
    ensures
        r == scaled_size(s@.subrange(from as int, to as int), mult as nat),
{
    match parse_usize_in(s, from, to) {
        Some(n) => n.checked_mul(mult),
        None => None,
    }
}

/// The end of `s[from..to]` once every trailing `c` is dropped.
fn strip_trailing_end(s: &[char], from: usize, to: usize, c: char) -> (end: usize)
    requires
        from <= to <= s@.len(),
    ensures
        from <= end <= to,
        s@.subrange(from as int, end as int) == strip_trailing(
            s@.subrange(from as int, to as int),
            c,
        ),
{
    let mut end = to;
    while end > from && s[end - 1] == c
        invariant
            from <= end <= to <= s@.len(),
            strip_trailing(s@.subrange(from as int, to as int), c) == strip_trailing(
                s@.subrange(from as int, end as int),
                c,
            ),
        decreases end - from,
    {
        assert(s@.subrange(from as int, end as int).drop_last() =~= s@.subrange(
            from as int,
            end - 1,
        ));
        end = end - 1;
    }
    end
}

/// The size in bytes that a sysfs cache `size` file holds.
pub fn cache_size_from_sysfs(raw: &str) -> (r: Option<usize>)
    ensures
        r == sysfs_cache_size(raw@),
{
    let s = chars_of(raw);
    let (a, b) = trim_bounds(s.as_slice(), 0, s.len());
    assert(s@.subrange(0, s@.len() as int) =~= raw@);
    if a < b {
        let last = s[b - 1];
        if last == 'K' {
            let end = strip_trailing_end(s.as_slice(), a, b, 'K');
            return scaled_size_in(s.as_slice(), a, end, 1024);
        } else if last == 'M' {
            let end = strip_trailing_end(s.as_slice(), a, b, 'M');
            return scaled_size_in(s.as_slice(), a, end, 1024 * 1024);
        } else if last == 'G' {
            let end = strip_trailing_end(s.as_slice(), a, b, 'G');
            return scaled_size_in(s.as_slice(), a, end, 1024 * 1024 * 1024);
        }
    }
    scaled_size_in(s.as_slice(), a, b, 1)
}

/// The last-level cache size from the sysfs `size` files of the cache levels
/// tried in order (level 3, then level 2): the first file that could be read
/// (`Some`) and holds a size. `None` when none does.
pub fn l3_bytes_from_sysfs(index3: Option<&str>, index2: Option<&str>) -> (r: Option<usize>)
    ensures
        r == (match index3 {
            Some(t) if sysfs_cache_size(t@) is Some => sysfs_cache_size(t@),
            _ => match index2 {
                Some(t) => sysfs_cache_size(t@),
                None => None,
            },
        }),
{
    if let Some(t) = index3 {
        let r = cache_size_from_sysfs(t);
        if r.is_some() {
            return r;
        }
    }
    match index2 {
        Some(t) => cache_size_from_sysfs(t),
        None => None,
    }
}

/// The last-level cache size, in bytes, from the CIM's `L3CacheSize` output,
/// which is in KiB.
pub fn l3_bytes_from_cim(text: &str) -> (r: Option<usize>)
    ensures
        r == cim_cache_size(text@),
{
    let s = chars_of(text);
    let (a, b) = trim_bounds(s.as_slice(), 0, s.len());
    assert(s@.subrange(0, s@.len() as int) =~= text@);
    scaled_size_in(s.as_slice(), a, b, 1024)
}

} // verus!
