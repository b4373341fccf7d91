//! Command parsing for the thin outer shell: the first argument names the
//! command, the rest are its operands.  No command here touches a store;
//! the caller maps each parsed command onto the engine's operations.

use vstd::prelude::*;
use vstd::utf8::{encode_utf8, is_ascii_chars, is_ascii_chars_encode_utf8};

use crate::bytes::bytes_eq;
use crate::codec::{lemma_encode_utf8_injective, str_bytes};

verus! {

/// One parsed command of the shell.
pub enum Cmd {
    Push(Vec<String>),
    Slice(i32, Option<i32>),
    Pop,
    Length,
    Reduce(String, Option<String>),
    Reducers,
    Clear,
    Attach(String, String, Option<String>),
    Get(String),
    Del(String),
}

pub open spec fn kw_push() -> Seq<char> {
    seq!['p', 'u', 's', 'h']
}

pub open spec fn kw_slice() -> Seq<char> {
    seq!['s', 'l', 'i', 'c', 'e']
}

pub open spec fn kw_pop() -> Seq<char> {
    seq!['p', 'o', 'p']
}

pub open spec fn kw_length() -> Seq<char> {
    seq!['l', 'e', 'n', 'g', 't', 'h']
}

pub open spec fn kw_clear() -> Seq<char> {
    seq!['c', 'l', 'e', 'a', 'r']
}

pub open spec fn kw_reducers() -> Seq<char> {
    seq!['r', 'e', 'd', 'u', 'c', 'e', 'r', 's']
}

pub open spec fn kw_reduce() -> Seq<char> {
    seq!['r', 'e', 'd', 'u', 'c', 'e']
}

pub open spec fn kw_attach() -> Seq<char> {
    seq!['a', 't', 't', 'a', 'c', 'h']
}

pub open spec fn kw_get() -> Seq<char> {
    seq!['g', 'e', 't']
}

pub open spec fn kw_del() -> Seq<char> {
    seq!['d', 'e', 'l']
}

/// ASCII keywords encode byte-for-byte.
proof fn lemma_kw_bytes(kc: Seq<char>, lit: Seq<u8>)
    requires
        lit.len() == kc.len(),
        forall|i: int|
            0 <= i < kc.len() ==> '\0' <= #[trigger] kc[i] <= '\u{7f}' && (kc[i] as u8) == lit[i],
    ensures
        encode_utf8(kc) == lit,
{
    broadcast use is_ascii_chars_encode_utf8;

    assert(is_ascii_chars(kc));
    assert(encode_utf8(kc) =~= lit);
}

/// Does `s` read exactly as the keyword whose characters are `kc` and whose
/// bytes are `lit`?
fn str_is_kw(s: &String, lit: &Vec<u8>, Ghost(kc): Ghost<Seq<char>>) -> (r: bool)
    requires
        lit@ == encode_utf8(kc),
    ensures
        r == (s@ == kc),
{
    let sb = str_bytes(s.as_str());
    let r = bytes_eq(&sb, lit);
    proof {
        if sb@ == lit@ {
            lemma_encode_utf8_injective(s@, kc);
        }
    }
    r
}

/// Is this character a decimal digit?
pub open spec fn is_digit(c: char) -> bool {
    48 <= (c as u32) <= 57
}

pub open spec fn all_digits(s: Seq<char>) -> bool {
    forall|i: int| 0 <= i < s.len() ==> is_digit(#[trigger] s[i])
}

/// The non-negative integer a string of digits denotes.
pub open spec fn digits_value(s: Seq<char>) -> int
    decreases s.len(),
{
    if s.len() == 0 {
        0
    } else {
        digits_value(s.drop_last()) * 10 + (s.last() as u32 - 48)
    }
}

/// The signed 32-bit value a decimal string denotes: an optional leading
/// sign, then at least one digit, within the representable range.
pub open spec fn parse_i32_spec(s: Seq<char>) -> Option<i32> {
    if s.len() >= 1 && (s[0] == '-' || s[0] == '+') {
        let ds = s.skip(1);
        if !(ds.len() > 0 && all_digits(ds)) {
            None
        } else if s[0] == '-' {
            if digits_value(ds) <= 0x8000_0000 {
                Some((-digits_value(ds)) as i32)
            } else {
                None
            }
        } else {
            if digits_value(ds) <= 0x7fff_ffff {
                Some(digits_value(ds) as i32)
            } else {
                None
            }
        }
    } else if s.len() > 0 && all_digits(s) && digits_value(s) <= 0x7fff_ffff {
        Some(digits_value(s) as i32)
    } else {
        None
    }
}

proof fn lemma_digits_nonneg(s: Seq<char>)
    requires
        all_digits(s),
    ensures
        digits_value(s) >= 0,
    decreases s.len(),
{
    if s.len() > 0 {
        assert(all_digits(s.drop_last())) by {
            assert(forall|i: int| 0 <= i < s.len() - 1 ==> s.drop_last()[i] == #[trigger] s[i]);
        }
        lemma_digits_nonneg(s.drop_last());
        assert(is_digit(s.last()));
    }
}

/// Parse a decimal 32-bit integer with an optional leading sign; `None` on
/// an empty string, a stray character, or a value out of range.
pub fn parse_i32(s: &str) -> (r: Option<i32>)
    ensures
        r == parse_i32_spec(s@),
{
    let n = s.unicode_len();
    if n == 0 {
        return None;
    }
    let c0 = s.get_char(0);
    let neg = (c0 as u32) == 45;
    let plus = (c0 as u32) == 43;
    proof {
        broadcast use vstd::utf8::char_u32_cast;

        assert(('-' as u32) == 45);
        assert(('+' as u32) == 43);
        if (c0 as u32) == 45 {
            assert((45u32 as char) == c0);
            assert((45u32 as char) == '-');
        }
        if (c0 as u32) == 43 {
            assert((43u32 as char) == c0);
            assert((43u32 as char) == '+');
        }
    }
    let start: usize = if neg || plus {
        1
    } else {
        0
    };
    if n == start {
        return None;
    }
    let ghost ds = if neg || plus {
        s@.skip(1)
    } else {
        s@
    };
    let mut acc: i64 = 0;
    let mut i: usize = start;
    while i < n
        invariant
            start <= i <= n,
            n == s@.len(),
            n >= 1,
            neg == (s@[0] == '-'),
            plus == (s@[0] == '+'),
            start == if neg || plus {
                1int
            } else {
                0int
            },
            ds == if neg || plus {
                s@.skip(1)
            } else {
                s@
            },
            all_digits(ds.take(i - start)),
            0 <= acc <= 0x1_0000_0000i64,
            acc as int == if digits_value(ds.take(i - start)) <= 0x1_0000_0000 {
                digits_value(ds.take(i - start))
            } else {
                0x1_0000_0000int
            },
        decreases n - i,
    {
        let c = s.get_char(i);
        proof {
            assert(ds[i - start] == s@[i as int]);
        }
        let cv = c as u32;
        if cv < 48 || cv > 57 {
            proof {
                assert(!is_digit(ds[i - start]));
                assert(!all_digits(ds));
            }
            return None;
        }
        let d = (cv - 48) as i64;
        let ghost prefix = ds.take(i - start);
        let ghost prefix1 = ds.take(i - start + 1);
        proof {
            assert(prefix1.drop_last() =~= prefix);
            assert(prefix1.last() == ds[i - start]);
            assert(all_digits(prefix1)) by {
                assert(forall|j: int| 0 <= j < prefix.len() ==> prefix1[j] == #[trigger] prefix[j]);
            }
            lemma_digits_nonneg(prefix);
            lemma_digits_nonneg(prefix1);
        }
        acc = acc * 10 + d;
        if acc > 0x1_0000_0000i64 {
            acc = 0x1_0000_0000i64 + 1;
            acc = acc - 1;
            proof {
                assert(digits_value(prefix1) > 0x1_0000_0000);
            }
        }
        i = i + 1;
    }
    proof {
        assert(ds.take(n - start) =~= ds);
    }
    if neg {
        if acc <= 0x8000_0000i64 {
            proof {
                lemma_digits_nonneg(ds);
            }
            Some((-acc) as i32)
        } else {
            None
        }
    } else {
        if acc <= 0x7fff_ffffi64 {
            Some(acc as i32)
        } else {
            None
        }
    }
}


/// Is `w` one of the shell's command words?
pub open spec fn known_kw(w: Seq<char>) -> bool {
    ||| w == kw_push()
    ||| w == kw_slice()
    ||| w == kw_pop()
    ||| w == kw_length()
    ||| w == kw_clear()
    ||| w == kw_reducers()
    ||| w == kw_reduce()
    ||| w == kw_attach()
    ||| w == kw_get()
    ||| w == kw_del()
}

/// Parse the process arguments into a command.  `args[0]` is the program's
/// own name; `args[1]` picks the command and the rest are its operands.
/// An unknown or missing command word, a missing operand, or an operand that
/// does not parse as a number yields `None`, and the shell prints its usage.
pub fn cmd_from_args(args: Vec<String>) -> (r: Option<Cmd>)
    ensures
        args.deep_view().len() <= 1 ==> r is None,
        args.deep_view().len() >= 2 && !known_kw(args.deep_view()[1]) ==> r is None,
        args.deep_view().len() >= 2 && args.deep_view()[1] == kw_push() ==> (r matches Some(c)
            && c matches Cmd::Push(v) && v.deep_view() == args.deep_view().skip(2)),
        args.deep_view().len() >= 2 && args.deep_view()[1] == kw_pop() ==> (r matches Some(c)
            && c matches Cmd::Pop),
        args.deep_view().len() >= 2 && args.deep_view()[1] == kw_length() ==> (r matches Some(c)
            && c matches Cmd::Length),
        args.deep_view().len() >= 2 && args.deep_view()[1] == kw_clear() ==> (r matches Some(c)
            && c matches Cmd::Clear),
        args.deep_view().len() >= 2 && args.deep_view()[1] == kw_reducers() ==> (r matches Some(c)
            && c matches Cmd::Reducers),
        args.deep_view().len() == 2 && args.deep_view()[1] == kw_slice() ==> (r matches Some(c)
            && c matches Cmd::Slice(st, sp) && st == 0 && sp is None),
        args.deep_view().len() == 3 && args.deep_view()[1] == kw_slice() ==> (match parse_i32_spec(
            args.deep_view()[2],
        ) {
            Some(st0) => r matches Some(c) && c matches Cmd::Slice(st, sp) && st == st0
                && sp is None,
            None => r is None,
        }),
        args.deep_view().len() >= 4 && args.deep_view()[1] == kw_slice() ==> (match (
            parse_i32_spec(args.deep_view()[2]),
            parse_i32_spec(args.deep_view()[3]),
        ) {
            (Some(st0), Some(sp0)) => r matches Some(c) && c matches Cmd::Slice(st, sp) && st
                == st0 && sp == Some(sp0),
            _ => r is None,
        }),
        args.deep_view().len() >= 2 && args.deep_view()[1] == kw_reduce() ==> (
        if args.deep_view().len() >= 4 {
            r matches Some(c) && c matches Cmd::Reduce(sc, init) && sc@ == args.deep_view()[2]
                && (init matches Some(st) && st@ == args.deep_view()[3])
        } else {
            r is None
        }),
        args.deep_view().len() >= 2 && args.deep_view()[1] == kw_attach() ==> (
        if args.deep_view().len() >= 5 {
            r matches Some(c) && c matches Cmd::Attach(nm, sc, init) && nm@ == args.deep_view()[2]
                && sc@ == args.deep_view()[3] && (init matches Some(st) && st@
                == args.deep_view()[4])
        } else if args.deep_view().len() == 4 {
            r matches Some(c) && c matches Cmd::Attach(nm, sc, init) && nm@ == args.deep_view()[2]
                && sc@ == args.deep_view()[3] && init is None
        } else {
            r is None
        }),
        args.deep_view().len() >= 2 && args.deep_view()[1] == kw_get() ==> (
        if args.deep_view().len() >= 3 {
            r matches Some(c) && c matches Cmd::Get(nm) && nm@ == args.deep_view()[2]
        } else {
            r is None
        }),
        args.deep_view().len() >= 2 && args.deep_view()[1] == kw_del() ==> (
        if args.deep_view().len() >= 3 {
            r matches Some(c) && c matches Cmd::Del(nm) && nm@ == args.deep_view()[2]
        } else {
            r is None
        }),
{
    let ghost av = args.deep_view();
    if args.len() <= 1 {
        return None;
    }
    proof {
        assert(av[1] == args@[1]@);
        assert(av.len() == args@.len());
    }
    let a1 = &args[1];
    let mut kw: Vec<u8> = Vec::new();
    // push
    kw.push(112);
    kw.push(117);
    kw.push(115);
    kw.push(104);
    proof {
        lemma_kw_bytes(kw_push(), kw@);
    }
    if str_is_kw(a1, &kw, Ghost(kw_push())) {
        let mut elems: Vec<String> = Vec::new();
        let mut j: usize = 2;
        while j < args.len()
            invariant
                2 <= j <= args@.len(),
                av == args.deep_view(),
                av.len() == args@.len(),
                elems.deep_view() =~= av.subrange(2, j as int),
            decreases args@.len() - j,
        {
            elems.push(args[j].clone());
            proof {
                assert(av.subrange(2, j + 1) =~= av.subrange(2, j as int).push(av[j as int]));
                assert(av[j as int] == args@[j as int]@);
            }
            j = j + 1;
        }
        proof {
            assert(av.subrange(2, av.len() as int) =~= av.skip(2));
        }
        return Some(Cmd::Push(elems));
    }
    // slice
    let mut kw: Vec<u8> = Vec::new();
    kw.push(115);
    kw.push(108);
    kw.push(105);
    kw.push(99);
    kw.push(101);
    proof {
        lemma_kw_bytes(kw_slice(), kw@);
    }
    if str_is_kw(a1, &kw, Ghost(kw_slice())) {
        if args.len() == 2 {
            return Some(Cmd::Slice(0, None));
        }
        proof {
            assert(av[2] == args@[2]@);
        }
        let st = match parse_i32(args[2].as_str()) {
            Some(v) => v,
            None => {
                return None;
            },
        };
        if args.len() == 3 {
            return Some(Cmd::Slice(st, None));
        }
        proof {
            assert(av[3] == args@[3]@);
        }
        let sp = match parse_i32(args[3].as_str()) {
            Some(v) => v,
            None => {
                return None;
            },
        };
        return Some(Cmd::Slice(st, Some(sp)));
    }
    // pop
    let mut kw: Vec<u8> = Vec::new();
    kw.push(112);
    kw.push(111);
    kw.push(112);
    proof {
        lemma_kw_bytes(kw_pop(), kw@);
    }
    if str_is_kw(a1, &kw, Ghost(kw_pop())) {
        return Some(Cmd::Pop);
    }
    // length
    let mut kw: Vec<u8> = Vec::new();
    kw.push(108);
    kw.push(101);
    kw.push(110);
    kw.push(103);
    kw.push(116);
    kw.push(104);
    proof {
        lemma_kw_bytes(kw_length(), kw@);
    }
    if str_is_kw(a1, &kw, Ghost(kw_length())) {
        return Some(Cmd::Length);
    }
    // clear
    let mut kw: Vec<u8> = Vec::new();
    kw.push(99);
    kw.push(108);
    kw.push(101);
    kw.push(97);
    kw.push(114);
    proof {
        lemma_kw_bytes(kw_clear(), kw@);
    }
    if str_is_kw(a1, &kw, Ghost(kw_clear())) {
        return Some(Cmd::Clear);
    }
    // reducers
    let mut kw: Vec<u8> = Vec::new();
    kw.push(114);
    kw.push(101);
    kw.push(100);
    kw.push(117);
    kw.push(99);
    kw.push(101);
    kw.push(114);
    kw.push(115);
    proof {
        lemma_kw_bytes(kw_reducers(), kw@);
    }
    if str_is_kw(a1, &kw, Ghost(kw_reducers())) {
        return Some(Cmd::Reducers);
    }
    // reduce
    let mut kw: Vec<u8> = Vec::new();
    kw.push(114);
    kw.push(101);
    kw.push(100);
    kw.push(117);
    kw.push(99);
    kw.push(101);
    proof {
        lemma_kw_bytes(kw_reduce(), kw@);
    }
    if str_is_kw(a1, &kw, Ghost(kw_reduce())) {
        if args.len() < 4 {
            return None;
        }
        proof {
            assert(av[2] == args@[2]@);
            assert(av[3] == args@[3]@);
        }
        let script = args[2].clone();
        let initial = args[3].clone();
        return Some(Cmd::Reduce(script, Some(initial)));
    }
    // attach
    let mut kw: Vec<u8> = Vec::new();
    kw.push(97);
    kw.push(116);
    kw.push(116);
    kw.push(97);
    kw.push(99);
    kw.push(104);
    proof {
        lemma_kw_bytes(kw_attach(), kw@);
    }
    if str_is_kw(a1, &kw, Ghost(kw_attach())) {
        if args.len() < 4 {
            return None;
        }
        proof {
            assert(av[2] == args@[2]@);
            assert(av[3] == args@[3]@);
        }
        let name = args[2].clone();
        let script = args[3].clone();
        if args.len() >= 5 {
            proof {
                assert(av[4] == args@[4]@);
            }
            let initial = args[4].clone();
            return Some(Cmd::Attach(name, script, Some(initial)));
        }
        return Some(Cmd::Attach(name, script, None));
    }
    // get
    let mut kw: Vec<u8> = Vec::new();
    kw.push(103);
    kw.push(101);
    kw.push(116);
    proof {
        lemma_kw_bytes(kw_get(), kw@);
    }
    if str_is_kw(a1, &kw, Ghost(kw_get())) {
        if args.len() < 3 {
            return None;
        }
        proof {
            assert(av[2] == args@[2]@);
        }
        return Some(Cmd::Get(args[2].clone()));
    }
    // del
    let mut kw: Vec<u8> = Vec::new();
    kw.push(100);
    kw.push(101);
    kw.push(108);
    proof {
        lemma_kw_bytes(kw_del(), kw@);
    }
    if str_is_kw(a1, &kw, Ghost(kw_del())) {
        if args.len() < 3 {
            return None;
        }
        proof {
            assert(av[2] == args@[2]@);
        }
        return Some(Cmd::Del(args[2].clone()));
    }
    None
}

} // verus!
