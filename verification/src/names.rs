//! The names of the segment files: `<generation>.log`, the generation in
//! decimal digits without a sign or leading zeros.

use vstd::prelude::*;
use vstd::string::StringExecFns;
use vstd::string::StrSliceExecFns;

verus! {

/// Whether `c` is a decimal digit.
pub open spec fn is_digit(c: char) -> bool {
    '0' <= c <= '9'
}

/// The digit that stands for `d`, for `d` below ten.
pub open spec fn digit(d: nat) -> char {
    ((d + 48) as u8) as char
}

/// The number that the digit `c` stands for.
pub open spec fn digit_of(c: char) -> nat {
    ((c as u8) - 48) as nat
}

/// The decimal digits of `n`, most significant first.
pub open spec fn decimal(n: nat) -> Seq<char>
    decreases n,
{
    if n < 10 {
        seq![digit(n)]
    } else {
        decimal(n / 10).push(digit(n % 10))
    }
}

/// The number that the digits of `s` stand for.
pub open spec fn digits_value(s: Seq<char>) -> nat
    decreases s.len(),
{
    if s.len() == 0 {
        0
    } else {
        digits_value(s.drop_last()) * 10 + digit_of(s.last())
    }
}

/// `.log`
pub open spec fn log_suffix() -> Seq<char> {
    seq!['.', 'l', 'o', 'g']
}

/// The name of the file that holds the segment of generation `gen`.
pub open spec fn log_name(gen: u64) -> Seq<char> {
    decimal(gen as nat) + log_suffix()
}

/// The digits of a number are digits, and stand for the number.
pub proof fn lemma_decimal(n: nat)
    ensures
        decimal(n).len() >= 1,
        forall|i: int| 0 <= i < decimal(n).len() ==> is_digit(#[trigger] decimal(n)[i]),
        digits_value(decimal(n)) == n,
    decreases n,
{
    if n < 10 {
        assert(decimal(n).drop_last() =~= Seq::<char>::empty());
        assert(digits_value(decimal(n).drop_last()) == 0);
    } else {
        lemma_decimal(n / 10);
        assert(decimal(n).drop_last() =~= decimal(n / 10));
    }
}

/// The digits before any place of a number stand for no more than the
/// number.
pub proof fn lemma_prefix_value(s: Seq<char>, i: int)
    requires
        0 <= i <= s.len(),
    ensures
        digits_value(s.take(i)) <= digits_value(s),
    decreases s.len() - i,
{
    if i < s.len() {
        lemma_prefix_value(s, i + 1);
        assert(s.take(i + 1).drop_last() =~= s.take(i));
    } else {
        assert(s.take(i) =~= s);
    }
}

/// What a segment's name looks like: digits that stand for the generation,
/// then `.log`; all of it ASCII.
pub proof fn lemma_log_name(gen: u64)
    ensures
        log_name(gen).len() >= 5,
        log_name(gen).take(log_name(gen).len() - 4) == decimal(gen as nat),
        forall|i: int| 0 <= i < log_name(gen).len() - 4 ==> is_digit(#[trigger] log_name(gen)[i]),
        vstd::utf8::is_ascii_chars(log_name(gen)),
        digits_value(log_name(gen).take(log_name(gen).len() - 4)) == gen,
{
    lemma_decimal(gen as nat);
    let d = decimal(gen as nat);
    assert(log_name(gen).take(log_name(gen).len() - 4) =~= d);
    assert forall|i: int| 0 <= i < log_name(gen).len() implies '\0' <= #[trigger] log_name(gen)[i]
        <= '\u{7f}' by {
        if i < d.len() {
            assert(is_digit(d[i]));
        }
    }
    assert forall|i: int| 0 <= i < log_name(gen).len() - 4 implies is_digit(
        #[trigger] log_name(gen)[i],
    ) by {
        assert(is_digit(d[i]));
    }
}

/// Two generations have different names.
pub proof fn lemma_log_name_injective(a: u64, b: u64)
    requires
        log_name(a) == log_name(b),
    ensures
        a == b,
{
    lemma_log_name(a);
    lemma_log_name(b);
}

/// The digit for `d` as a string.
fn digit_str(d: u64) -> (s: &'static str)
    requires
        d < 10,
    ensures
        s@ == seq![digit(d as nat)],
{
    proof {
        reveal_strlit("0");
        reveal_strlit("1");
        reveal_strlit("2");
        reveal_strlit("3");
        reveal_strlit("4");
        reveal_strlit("5");
        reveal_strlit("6");
        reveal_strlit("7");
        reveal_strlit("8");
        reveal_strlit("9");
    }
    let s = if d == 0 {
        "0"
    } else if d == 1 {
        "1"
    } else if d == 2 {
        "2"
    } else if d == 3 {
        "3"
    } else if d == 4 {
        "4"
    } else if d == 5 {
        "5"
    } else if d == 6 {
        "6"
    } else if d == 7 {
        "7"
    } else if d == 8 {
        "8"
    } else {
        "9"
    };
    assert(s@ =~= seq![digit(d as nat)]);
    s
}

/// The name of the file that holds the segment of generation `gen`, within
/// the directory of the log.
pub fn log_path(gen: u64) -> (name: String)
    ensures
        name@ == log_name(gen),
{
    proof {
        reveal_strlit(".log");
    }
    let mut name = String::from_str(".log");
    assert(name@ =~= log_suffix());
    let mut n: u64 = gen / 10;
    name = String::from_str(digit_str(gen % 10)).concat(name.as_str());
    assert(gen < 10 ==> name@ =~= log_name(gen));
    assert(gen >= 10 ==> decimal(n as nat) + name@ =~= log_name(gen));
    while n > 0
        invariant
            log_name(gen) == if n == 0 {
                name@
            } else {
                decimal(n as nat) + name@
            },
        decreases n,
    {
        let ghost before = name@;
        name = String::from_str(digit_str(n % 10)).concat(name.as_str());
        proof {
            if n < 10 {
                assert(seq![digit(n as nat)] + before =~= name@);
            } else {
                assert(decimal((n / 10) as nat) + name@ =~= decimal(n as nat) + before);
            }
        }
        n = n / 10;
    }
    name
}

/// The generation whose segment the file `name` holds, or `None` where
/// `name` is not the name of a segment.
pub fn parse_log_name(name: &str) -> (r: Option<u64>)
    ensures
        match r {
            Some(gen) => name@ == log_name(gen),
            None => forall|gen: u64| name@ != #[trigger] log_name(gen),
        },
{
    if !name.is_ascii() {
        proof {
            assert forall|gen: u64| name@ != #[trigger] log_name(gen) by {
                lemma_log_name(gen);
            }
        }
        return None;
    }
    let len: usize = name.unicode_len();
    if len < 5 {
        proof {
            assert forall|gen: u64| name@ != #[trigger] log_name(gen) by {
                lemma_log_name(gen);
            }
        }
        return None;
    }
    let digits: usize = len - 4;
    let mut value: u64 = 0;
    let mut i: usize = 0;
    assert(name@.take(0) =~= Seq::<char>::empty());
    while i < digits
        invariant
            name.is_ascii(),
            len == name@.len(),
            digits == len - 4,
            i <= digits,
            value == digits_value(name@.take(i as int)),
        decreases digits - i,
    {
        let b: u8 = name.get_ascii(i);
        if b < 48 || b > 57 {
            proof {
                assert forall|gen: u64| name@ != #[trigger] log_name(gen) by {
                    lemma_log_name(gen);
                    if name@ == log_name(gen) {
                        assert(is_digit(log_name(gen)[i as int]));
                    }
                }
            }
            return None;
        }
        let d: u64 = (b - 48) as u64;
        proof {
            assert(name@.take(i + 1).drop_last() =~= name@.take(i as int));
            assert(digits_value(name@.take(i + 1)) == value * 10 + d);
        }
        if value > (u64::MAX - d) / 10 {
            proof {
                assert forall|gen: u64| name@ != #[trigger] log_name(gen) by {
                    lemma_log_name(gen);
                    if name@ == log_name(gen) {
                        let all = name@.take(digits as int);
                        lemma_prefix_value(all, i + 1);
                        assert(all.take(i + 1) =~= name@.take(i + 1));
                    }
                }
            }
            return None;
        }
        value = value * 10 + d;
        i += 1;
    }
    let candidate = log_path(value);
    let owned = name.to_owned();
    if candidate == owned {
        Some(value)
    } else {
        proof {
            assert forall|gen: u64| name@ != #[trigger] log_name(gen) by {
                lemma_log_name(gen);
            }
        }
        None
    }
}

/// The generation whose segment a file of the name `name` holds, if it is
/// the name of a segment.
pub open spec fn gen_of_name(name: Seq<char>) -> Option<u64> {
    if exists|gen: u64| name == #[trigger] log_name(gen) {
        Some(choose|gen: u64| name == #[trigger] log_name(gen))
    } else {
        None
    }
}

/// The generations of the segments among the files `names`, in the order of
/// `names`.
pub open spec fn name_gens(names: Seq<String>) -> Seq<u64>
    decreases names.len(),
{
    if names.len() == 0 {
        Seq::empty()
    } else {
        match gen_of_name(names.last()@) {
            Some(gen) => name_gens(names.drop_last()).push(gen),
            None => name_gens(names.drop_last()),
        }
    }
}

/// Whether `s` ascends; equal neighbours are allowed.
pub open spec fn sorted(s: Seq<u64>) -> bool {
    forall|i: int, j: int| 0 <= i <= j < s.len() ==> s[i] <= s[j]
}

/// Puts `gen` into the ascending list `list`, at its place.
fn insert_sorted(list: &mut Vec<u64>, gen: u64)
    requires
        sorted(old(list)@),
    ensures
        sorted(final(list)@),
        final(list)@.to_multiset() == old(list)@.to_multiset().insert(gen),
{
    let ghost before = list@;
    let mut i: usize = 0;
    while i < list.len() && list[i] < gen
        invariant
            i <= list@.len(),
            list@ == before,
            forall|j: int| 0 <= j < i ==> before[j] < gen,
        decreases list@.len() - i,
    {
        i += 1;
    }
    list.insert(i, gen);
    proof {
        vstd::seq_lib::to_multiset_insert(before, i as int, gen);
        assert forall|a: int, b: int| 0 <= a <= b < list@.len() implies list@[a] <= list@[b] by {
            let a0 = if a < i { a } else { a - 1 };
            let b0 = if b < i { b } else { b - 1 };
            if a != i && b != i {
                assert(before[a0] <= before[b0]);
            } else if a == i && b != i {
                assert(before[i as int] <= before[b0]);
            }
        }
    }
}

/// The generations of the segments among the files `names` of a directory,
/// ascending. Names that are not the name of a segment are passed over.
pub fn sorted_gen_list(names: &Vec<String>) -> (gens: Vec<u64>)
    ensures
        sorted(gens@),
        gens@.to_multiset() == name_gens(names@).to_multiset(),
{
    let mut gens: Vec<u64> = Vec::new();
    let mut i: usize = 0;
    assert(names@.take(0) =~= Seq::<String>::empty());
    while i < names.len()
        invariant
            i <= names@.len(),
            sorted(gens@),
            gens@.to_multiset() == name_gens(names@.take(i as int)).to_multiset(),
        decreases names@.len() - i,
    {
        let ghost part = names@.take(i + 1);
        proof {
            assert(part.drop_last() =~= names@.take(i as int));
            assert(part.last() == names@[i as int]);
        }
        match parse_log_name(names[i].as_str()) {
            Some(gen) => {
                proof {
                    let chosen = choose|g: u64| names@[i as int]@ == #[trigger] log_name(g);
                    lemma_log_name_injective(chosen, gen);
                    vstd::seq_lib::to_multiset_build(name_gens(names@.take(i as int)), gen);
                }
                insert_sorted(&mut gens, gen);
            },
            None => {},
        }
        i += 1;
    }
    assert(names@.take(i as int) =~= names@);
    gens
}

} // verus!
