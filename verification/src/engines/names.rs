//! The names of the segment files: `<gen>.log`, with the generation in
//! decimal.

use vstd::prelude::*;
use vstd::string::*;

verus! {

/// The character of a decimal digit.
pub open spec fn digit(d: nat) -> char {
    if d == 0 {
        '0'
    } else if d == 1 {
        '1'
    } else if d == 2 {
        '2'
    } else if d == 3 {
        '3'
    } else if d == 4 {
        '4'
    } else if d == 5 {
        '5'
    } else if d == 6 {
        '6'
    } else if d == 7 {
        '7'
    } else if d == 8 {
        '8'
    } else {
        '9'
    }
}

/// A number in decimal, without leading zeros.
pub open spec fn decimal(n: nat) -> Seq<char>
    decreases n,
{
    if n < 10 {
        seq![digit(n)]
    } else {
        decimal(n / 10).push(digit(n % 10))
    }
}

/// The name of the file of the segment `gen`.
pub open spec fn log_name(gen: u64) -> Seq<char> {
    decimal(gen as nat) + ".log"@
}

/// The text of one decimal digit.
fn digit_text(d: u64) -> (text: &'static str)
    requires
        d < 10,
    ensures
        text@ == seq![digit(d as nat)],
{
    proof {
        reveal_strlit("0");
        reveal_strlit("1");
        reveal_strlit("2");
        reveal_strlit("3");
        reveal_strlit("4");
        reveal_strlit("5");
        reveal_strlit("6");
        reveal_strlit("7");
        reveal_strlit("8");
        reveal_strlit("9");
    }
    let text = if d == 0 {
        "0"
    } else if d == 1 {
        "1"
    } else if d == 2 {
        "2"
    } else if d == 3 {
        "3"
    } else if d == 4 {
        "4"
    } else if d == 5 {
        "5"
    } else if d == 6 {
        "6"
    } else if d == 7 {
        "7"
    } else if d == 8 {
        "8"
    } else {
        "9"
    };
    assert(text@ =~= seq![digit(d as nat)]);
    text
}

/// Writes a number in decimal.
pub fn decimal_text(n: u64) -> (text: String)
    ensures
        text@ == decimal(n as nat),
    decreases n,
{
    if n < 10 {
        String::from_str(digit_text(n))
    } else {
        let mut text = decimal_text(n / 10);
        text.append(digit_text(n % 10));
        assert(text@ =~= decimal(n as nat));
        text
    }
}

/// The name of the file that holds the segment `gen`, inside the
/// directory of the store.
pub fn log_path(gen: u64) -> (name: String)
    ensures
        name@ == log_name(gen),
{
    let mut name = decimal_text(gen);
    name.append(".log");
    name
}

/// The number that a decimal digit stands for; 0 for any other character.
pub open spec fn digit_value(c: char) -> nat {
    if c == '1' {
        1
    } else if c == '2' {
        2
    } else if c == '3' {
        3
    } else if c == '4' {
        4
    } else if c == '5' {
        5
    } else if c == '6' {
        6
    } else if c == '7' {
        7
    } else if c == '8' {
        8
    } else if c == '9' {
        9
    } else {
        0
    }
}

/// The character is a decimal digit.
pub open spec fn is_digit(c: char) -> bool {
    c == '0' || digit_value(c) > 0
}

/// The number that a run of digits stands for.
pub open spec fn value_of(s: Seq<char>) -> nat
    decreases s.len(),
{
    if s.len() == 0 {
        0
    } else {
        value_of(s.drop_last()) * 10 + digit_value(s.last())
    }
}

/// The text is a number in decimal as `decimal` writes it: digits, at
/// least one, and no zero in front of another digit.
pub open spec fn canonical(s: Seq<char>) -> bool {
    &&& s.len() > 0
    &&& forall|i: int| 0 <= i < s.len() ==> is_digit(#[trigger] s[i])
    &&& (s[0] != '0' || s.len() == 1)
}

/// What `decimal` writes is canonical and stands for the number written.
pub proof fn lemma_decimal_value(n: nat)
    ensures
        canonical(decimal(n)),
        value_of(decimal(n)) == n,
        decimal(n)[0] == '0' ==> n == 0,
    decreases n,
{
    let s = decimal(n);
    if n < 10 {
        assert(s.drop_last() =~= Seq::<char>::empty());
        assert(value_of(s.drop_last()) == 0);
        assert(s.last() == digit(n));
        assert(digit_value(digit(n)) == n);
    } else {
        lemma_decimal_value(n / 10);
        assert(s.drop_last() =~= decimal(n / 10));
        assert(s.last() == digit(n % 10));
        assert(digit_value(digit(n % 10)) == n % 10);
        assert((n / 10) * 10 + n % 10 == n);
    }
}

/// A canonical text is what `decimal` writes for the number that it
/// stands for.
pub proof fn lemma_canonical_decimal(s: Seq<char>)
    requires
        canonical(s),
    ensures
        decimal(value_of(s)) == s,
    decreases s.len(),
{
    let t = s.drop_last();
    if s.len() == 1 {
        assert(t =~= Seq::<char>::empty());
        assert(value_of(t) == 0);
        assert(decimal(value_of(s)) =~= s);
    } else {
        assert(canonical(t)) by {
            assert(t[0] == s[0]);
            assert forall|i: int| 0 <= i < t.len() implies is_digit(#[trigger] t[i]) by {
                assert(t[i] == s[i]);
            }
        }
        lemma_canonical_decimal(t);
        assert(value_of(t) >= 1) by {
            if value_of(t) == 0 {
                assert(decimal(0)[0] == '0');
            }
        }
        let v = value_of(t);
        let d = digit_value(s.last());
        assert(is_digit(s[s.len() - 1]));
        assert((v * 10 + d) / 10 == v && (v * 10 + d) % 10 == d);
        assert(decimal(value_of(s)) =~= s);
    }
}

/// The digits read so far never stand for more than all of them do.
pub proof fn lemma_value_of_prefix(s: Seq<char>, n: int)
    requires
        0 <= n <= s.len(),
    ensures
        value_of(s.take(n)) <= value_of(s),
    decreases s.len() - n,
{
    if n < s.len() {
        lemma_value_of_prefix(s, n + 1);
        assert(s.take(n + 1).drop_last() =~= s.take(n));
    } else {
        assert(s.take(n) =~= s);
    }
}

/// Two generations do not share a file name.
pub proof fn lemma_log_name_injective(a: u64, b: u64)
    requires
        log_name(a) == log_name(b),
    ensures
        a == b,
{
    let suffix = ".log"@;
    let na = decimal(a as nat);
    let nb = decimal(b as nat);
    assert(na =~= (na + suffix).take(na.len() as int));
    assert(nb =~= (nb + suffix).take(nb.len() as int));
    assert((na + suffix).len() == na.len() + suffix.len());
    assert((nb + suffix).len() == nb.len() + suffix.len());
    lemma_decimal_value(a as nat);
    lemma_decimal_value(b as nat);
}

/// The number of a decimal digit.
fn digit_of(c: char) -> (r: Option<u64>)
    ensures
        match r {
            Some(d) => is_digit(c) && d == digit_value(c),
            None => !is_digit(c),
        },
{
    if c == '0' {
        Some(0)
    } else if c == '1' {
        Some(1)
    } else if c == '2' {
        Some(2)
    } else if c == '3' {
        Some(3)
    } else if c == '4' {
        Some(4)
    } else if c == '5' {
        Some(5)
    } else if c == '6' {
        Some(6)
    } else if c == '7' {
        Some(7)
    } else if c == '8' {
        Some(8)
    } else if c == '9' {
        Some(9)
    } else {
        None
    }
}

/// Reads the generation from the name of a segment file.
///
/// A name is that of a segment file where it is `<gen>.log` with the
/// generation in decimal, without leading zeros, and no more than a `u64`
/// holds.
pub fn parse_log_name(name: &str) -> (r: Option<u64>)
    ensures
        match r {
            Some(gen) => name@ == log_name(gen),
            None => forall|gen: u64| name@ != log_name(gen),
        },
{
    proof {
        reveal_strlit(".log");
    }
    let ghost suffix = ".log"@;
    let len = name.unicode_len();
    if len < 5 {
        assert forall|gen: u64| name@ != log_name(gen) by {
            lemma_decimal_value(gen as nat);
        }
        return None;
    }
    let count: usize = len - 4;
    if name.get_char(count) != '.' || name.get_char(count + 1) != 'l' || name.get_char(count + 2)
        != 'o' || name.get_char(count + 3) != 'g' {
        assert forall|gen: u64| name@ != log_name(gen) by {
            let digits = decimal(gen as nat);
            if name@ == log_name(gen) {
                assert(digits.len() == count);
                assert(log_name(gen)[count + 0] == suffix[0]);
                assert(log_name(gen)[count + 1] == suffix[1]);
                assert(log_name(gen)[count + 2] == suffix[2]);
                assert(log_name(gen)[count + 3] == suffix[3]);
            }
        }
        return None;
    }
    let ghost digits = name@.take(count as int);
    assert(name@ =~= digits + suffix);
    assert forall|gen: u64| name@ == log_name(gen) implies decimal(gen as nat) == digits by {
        assert(decimal(gen as nat) =~= log_name(gen).take(count as int));
    }
    if count > 1 && name.get_char(0) == '0' {
        assert forall|gen: u64| name@ != log_name(gen) by {
            if name@ == log_name(gen) {
                lemma_decimal_value(gen as nat);
            }
        }
        return None;
    }
    let mut value: u64 = 0;
    let mut i: usize = 0;
    while i < count
        invariant
            i <= count,
            count + 4 == name@.len(),
            digits == name@.take(count as int),
            value == value_of(digits.take(i as int)),
            forall|j: int| 0 <= j < i ==> is_digit(#[trigger] digits[j]),
            forall|gen: u64| name@ == log_name(gen) ==> decimal(gen as nat) == digits,
        decreases count - i,
    {
        let ghost read = digits.take(i + 1);
        proof {
            assert(read.drop_last() =~= digits.take(i as int));
            assert(read.last() == digits[i as int]);
            lemma_value_of_prefix(digits, i + 1);
        }
        let digit = match digit_of(name.get_char(i)) {
            Some(digit) => digit,
            None => {
                assert forall|gen: u64| name@ != log_name(gen) by {
                    if name@ == log_name(gen) {
                        lemma_decimal_value(gen as nat);
                        assert(is_digit(decimal(gen as nat)[i as int]));
                    }
                }
                return None;
            },
        };
        let next = match value.checked_mul(10) {
            Some(tens) => tens.checked_add(digit),
            None => None,
        };
        value = match next {
            Some(next) => next,
            None => {
                assert forall|gen: u64| name@ != log_name(gen) by {
                    if name@ == log_name(gen) {
                        lemma_decimal_value(gen as nat);
                    }
                }
                return None;
            },
        };
        i = i + 1;
    }
    proof {
        assert(digits.take(count as int) =~= digits);
        assert(digits[0] == name@[0]);
        lemma_canonical_decimal(digits);
    }
    Some(value)
}

/// Puts `gen` at its place in a list of generations in rising order,
/// unless the list has it.
pub fn insert_gen(gens: &mut Vec<u64>, gen: u64)
    requires
        rising(old(gens)@),
    ensures
        rising(final(gens)@),
        forall|g: u64| final(gens)@.contains(g) <==> old(gens)@.contains(g) || g == gen,
{
    let mut at: usize = 0;
    while at < gens.len() && gens[at] < gen
        invariant
            at <= gens.len(),
            gens@ == old(gens)@,
            rising(gens@),
            forall|j: int| 0 <= j < at ==> (#[trigger] gens@[j]) < gen,
        decreases gens.len() - at,
    {
        at = at + 1;
    }
    if at < gens.len() && gens[at] == gen {
        assert(gens@.contains(gens@[at as int]));
        return ;
    }
    let ghost before = gens@;
    gens.insert(at, gen);
    proof {
        before.insert_ensures(at as int, gen);
        assert forall|a: int, b: int| 0 <= a < b < gens@.len() implies #[trigger] gens@[a]
            < #[trigger] gens@[b] by {
            if b < at {
                assert(before[a] < before[b]);
            } else if b == at {
            } else if a < at {
                assert(before[a] < before[b - 1]);
            } else if a == at {
                assert(before[at as int] <= before[b - 1]) by {
                    if at < b - 1 {
                        assert(before[at as int] < before[b - 1]);
                    }
                }
            } else {
                assert(before[a - 1] < before[b - 1]);
            }
        }
        assert forall|g: u64| gens@.contains(g) <==> before.contains(g) || g == gen by {
            if gens@.contains(g) {
                let j = choose|j: int| 0 <= j < gens@.len() && gens@[j] == g;
                if j < at {
                    assert(before[j] == g);
                } else if j > at {
                    assert(before[j - 1] == g);
                }
            }
            if before.contains(g) {
                let j = choose|j: int| 0 <= j < before.len() && before[j] == g;
                if j < at {
                    assert(gens@[j] == g);
                } else {
                    assert(gens@[j + 1] == g);
                }
            }
            if g == gen {
                assert(gens@[at as int] == g);
            }
        }
    }
}

/// The numbers rise strictly.
pub open spec fn rising(gens: Seq<u64>) -> bool {
    forall|a: int, b: int| 0 <= a < b < gens.len() ==> #[trigger] gens[a] < #[trigger] gens[b]
}

/// One of the names is the file name of the segment `gen`.
pub open spec fn names_gen(names: Seq<String>, gen: u64) -> bool {
    exists|i: int| 0 <= i < names.len() && (#[trigger] names[i])@ == log_name(gen)
}

/// The generations of the segment files among the names of a directory,
/// in rising order.
///
/// A name that is not that of a segment file is passed over.
pub fn get_sorted_gen_files(names: &Vec<String>) -> (gens: Vec<u64>)
    ensures
        rising(gens@),
        forall|gen: u64| gens@.contains(gen) <==> names_gen(names@, gen),
{
    let mut gens: Vec<u64> = Vec::new();
    let mut i: usize = 0;
    while i < names.len()
        invariant
            i <= names.len(),
            rising(gens@),
            forall|gen: u64| gens@.contains(gen) <==> names_gen(names@.take(i as int), gen),
        decreases names.len() - i,
    {
        let ghost seen = names@.take(i as int);
        let ghost with = names@.take(i + 1);
        let ghost before = gens@;
        let parsed = parse_log_name(names[i].as_str());
        if let Some(gen) = parsed {
            insert_gen(&mut gens, gen);
        }
        proof {
            assert forall|gen: u64| gens@.contains(gen) <==> names_gen(with, gen) by {
                if names_gen(with, gen) {
                    let j = choose|j: int| 0 <= j < with.len() && (#[trigger] with[j])@ == log_name(gen);
                    if j < i {
                        assert(seen[j]@ == log_name(gen));
                        assert(names_gen(seen, gen));
                    } else {
                        if let Some(found) = parsed {
                            lemma_log_name_injective(found, gen);
                        }
                    }
                }
                if names_gen(seen, gen) {
                    let j = choose|j: int| 0 <= j < seen.len() && (#[trigger] seen[j])@ == log_name(gen);
                    assert(with[j]@ == log_name(gen));
                }
                if let Some(found) = parsed {
                    if gen == found {
                        assert(with[i as int]@ == log_name(gen));
                    }
                }
            }
        }
        i = i + 1;
    }
    assert(names@.take(i as int) =~= names@);
    gens
}

} // verus!
