//! What to say when no device can be brought up.

use vstd::prelude::*;
use vstd::string::{StrSliceExecFns, StringExecFns};

use crate::text::{decimal, push_number};

verus! {

/// The characters that separate words.
pub open spec fn is_space(c: char) -> bool {
    ||| '\u{9}' <= c <= '\u{d}'
    ||| c == ' '
    ||| c == '\u{85}'
    ||| c == '\u{a0}'
    ||| c == '\u{1680}'
    ||| '\u{2000}' <= c <= '\u{200a}'
    ||| c == '\u{2028}'
    ||| c == '\u{2029}'
    ||| c == '\u{202f}'
    ||| c == '\u{205f}'
    ||| c == '\u{3000}'
}

/// The length of the longest beginning that is made of spaces, or that is free of them.
pub open spec fn run_of(s: Seq<char>, spaces: bool) -> nat
    decreases s.len(),
{
    if s.len() > 0 && is_space(s[0]) == spaces {
        1 + run_of(s.skip(1), spaces)
    } else {
        0
    }
}

/// The word of a number, counted from zero.
pub open spec fn nth_word(s: Seq<char>, n: nat) -> Option<Seq<char>>
    decreases n,
{
    let t = s.skip(run_of(s, true) as int);
    let len = run_of(t, false) as int;
    if t.len() == 0 {
        None
    } else if n == 0 {
        Some(t.take(len))
    } else {
        nth_word(t.skip(len), (n - 1) as nat)
    }
}

/// The length of the first line.
pub open spec fn line_len(s: Seq<char>) -> nat
    decreases s.len(),
{
    if s.len() > 0 && s[0] != '\n' {
        1 + line_len(s.skip(1))
    } else {
        0
    }
}

/// The version that the driver's kernel module states of itself: the eighth word of the
/// first line.
pub open spec fn module_version(text: Seq<char>) -> Option<Seq<char>> {
    nth_word(text.take(line_len(text) as int), 7)
}

/// A number with its sign.
pub open spec fn signed(n: int) -> Seq<char> {
    if n < 0 {
        "-"@ + decimal((-n) as nat)
    } else {
        decimal(n as nat)
    }
}

/// The explanation of a failure with this code.
pub open spec fn note(code: int, version: Option<Seq<char>>) -> Seq<char> {
    "CUDA is not available in this process ("@ + signed(code) + ")."@ + match version {
        Some(v) => "\n  nvidia kernel module: "@ + v,
        None => Seq::empty(),
    } + if code == 804 {
        mismatch()
    } else {
        Seq::empty()
    }
}

/// The advice on a driver library that does not match the kernel module.
pub open spec fn mismatch() -> Seq<char> {
    "\n  libcuda.so.1 does not match the loaded kernel module, so bringing"@
        + "\n  up a context fails with error 804.  Point LD_LIBRARY_PATH at the"@
        + "\n  userspace driver matching the module, e.g."@
        + "\n    LD_LIBRARY_PATH=/path/to/your/nvidia/driver/lib"@
}

fn space(c: char) -> (r: bool)
    ensures
        r == is_space(c),
{
    ('\u{9}' <= c && c <= '\u{d}') || c == ' ' || c == '\u{85}' || c == '\u{a0}' || c == '\u{1680}' || (
    '\u{2000}' <= c && c <= '\u{200a}') || c == '\u{2028}' || c == '\u{2029}' || c == '\u{202f}' || c
        == '\u{205f}' || c == '\u{3000}'
}

proof fn lemma_run(s: Seq<char>, spaces: bool)
    ensures
        run_of(s, spaces) <= s.len(),
    decreases s.len(),
{
    if s.len() > 0 {
        lemma_run(s.skip(1), spaces);
    }
}

proof fn lemma_line(s: Seq<char>)
    ensures
        line_len(s) <= s.len(),
    decreases s.len(),
{
    if s.len() > 0 {
        lemma_line(s.skip(1));
    }
}

/// Where the run that starts at `from` ends.
fn run_end(s: &str, from: usize, end: usize, spaces: bool) -> (to: usize)
    requires
        from <= end <= s@.len(),
    ensures
        to == from + run_of(s@.subrange(from as int, end as int), spaces),
        to <= end,
{
    let mut i: usize = from;
    let ghost whole = s@.subrange(from as int, end as int);
    while i < end && space(s.get_char(i)) == spaces
        invariant
            from <= i <= end <= s@.len(),
            whole == s@.subrange(from as int, end as int),
            run_of(whole, spaces) == i - from + run_of(s@.subrange(i as int, end as int), spaces),
        decreases end - i,
    {
        proof {
            let rest = s@.subrange(i as int, end as int);
            assert(rest[0] == s@[i as int]);
            assert(rest.skip(1) =~= s@.subrange(i + 1, end as int));
        }
        i += 1;
    }
    proof {
        let rest = s@.subrange(i as int, end as int);
        if i < end {
            assert(rest[0] == s@[i as int]);
        }
        lemma_run(rest, spaces);
    }
    i
}

/// The version of the kernel module in the driver's own words, if they hold one.
pub fn kernel_module_version(text: &str) -> (v: Option<String>)
    ensures
        match module_version(text@) {
            Some(w) => v matches Some(s) && s@ == w,
            None => v is None,
        },
{
    let n: usize = text.unicode_len();
    let mut end: usize = 0;
    proof {
        lemma_line(text@);
        assert(text@.skip(0) =~= text@);
    }
    while end < n && text.get_char(end) != '\n'
        invariant
            end <= n,
            n == text@.len(),
            line_len(text@) == end + line_len(text@.skip(end as int)),
        decreases n - end,
    {
        proof {
            let rest = text@.skip(end as int);
            assert(rest[0] == text@[end as int]);
            assert(rest.skip(1) =~= text@.skip(end + 1));
        }
        end += 1;
    }
    proof {
        if end < n {
            assert(text@.skip(end as int)[0] == text@[end as int]);
        }
        assert(line_len(text@) == end);
    }
    let ghost line = text@.take(end as int);
    let mut at: usize = 0;
    let mut k: usize = 0;
    proof {
        assert(text@.subrange(0, end as int) =~= line);
    }
    while k <= 7
        invariant
            k <= 8,
            at <= end <= text@.len(),
            k <= 7 ==> nth_word(line, 7) == nth_word(
                text@.subrange(at as int, end as int),
                (7 - k) as nat,
            ),
            k <= 7,
            line == text@.take(end as int),
            module_version(text@) == nth_word(line, 7),
        decreases 8 - k,
    {
        let start: usize = run_end(text, at, end, true);
        if start == end {
            proof {
                let s = text@.subrange(at as int, end as int);
                assert(s.skip(run_of(s, true) as int).len() == 0);
            }
            return None;
        }
        let stop: usize = run_end(text, start, end, false);
        proof {
            let s = text@.subrange(at as int, end as int);
            let t = s.skip(run_of(s, true) as int);
            assert(t =~= text@.subrange(start as int, end as int));
            assert(t.skip(run_of(t, false) as int) =~= text@.subrange(stop as int, end as int));
            assert(t.take(run_of(t, false) as int) =~= text@.subrange(start as int, stop as int));
        }
        if k == 7 {
            return Some(text.substring_char(start, stop).to_owned());
        }
        at = stop;
        k += 1;
    }
    None
}

/// Explain why there is no device: the code of the failure, and the version of the kernel
/// module where it is known.
pub fn context_note(code: i32, version: &Option<String>) -> (s: String)
    ensures
        s@ == note(
            code as int,
            match version {
                Some(v) => Some(v@),
                None => None,
            },
        ),
{
    let mut s: String = "CUDA is not available in this process (".to_owned();
    if code < 0 {
        s.append("-");
        push_number(&mut s, (-(code as i64)) as u64);
    } else {
        push_number(&mut s, code as u64);
    }
    s.append(").");
    match version {
        Some(v) => {
            s.append("\n  nvidia kernel module: ");
            s.append(v.as_str());
        },
        None => {},
    }
    if code == 804 {
        s.append("\n  libcuda.so.1 does not match the loaded kernel module, so bringing");
        s.append("\n  up a context fails with error 804.  Point LD_LIBRARY_PATH at the");
        s.append("\n  userspace driver matching the module, e.g.");
        s.append("\n    LD_LIBRARY_PATH=/path/to/your/nvidia/driver/lib");
    }
    proof {
        let v = match version {
            Some(v) => Some(v@),
            None => None,
        };
        assert(s@ =~= note(code as int, v));
    }
    s
}

/// The whole numbers that hold a checkpoint of this many bytes.
pub fn arena_len(bytes: usize) -> (n: usize)
    requires
        bytes <= usize::MAX - 3,
    ensures
        4 * n >= bytes,
        4 * n < bytes + 4,
{
    (bytes + 3) / 4
}

} // verus!
