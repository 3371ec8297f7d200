//! Names of files.
use vstd::prelude::*;
use vstd::string::StrSliceExecFns;

verus! {

/// The decimal digits of a number.
pub open spec fn decimal(n: nat) -> Seq<char>
    decreases n,
{
    if n < 10 {
        seq![('0' as nat + n) as char]
    } else {
        decimal(n / 10).push(('0' as nat + n % 10) as char)
    }
}

/// The decimal digits of a number, with zeros in front if they are fewer than
/// five.
pub open spec fn five_digits(n: nat) -> Seq<char> {
    Seq::new(
        (if decimal(n).len() < 5 {
            5 - decimal(n).len()
        } else {
            0
        }) as nat,
        |i: int| '0',
    ) + decimal(n)
}

/// The number that digits stand for.
spec fn number(s: Seq<char>) -> int
    decreases s.len(),
{
    if s.len() == 0 {
        0
    } else {
        10 * number(s.drop_last()) + (s.last() as int - '0' as int)
    }
}

proof fn lemma_decimal(n: nat)
    ensures
        number(decimal(n)) == n,
    decreases n,
{
    if n < 10 {
        reveal_with_fuel(number, 2);
    } else {
        lemma_decimal(n / 10);
        assert(decimal(n).drop_last() =~= decimal(n / 10));
    }
}

proof fn lemma_leading_zeros(k: nat, s: Seq<char>)
    ensures
        number(Seq::new(k, |i: int| '0') + s) == number(s),
    decreases k + s.len(),
{
    let zeros = Seq::new(k, |i: int| '0');
    if s.len() > 0 {
        lemma_leading_zeros(k, s.drop_last());
        assert((zeros + s).drop_last() =~= zeros + s.drop_last());
    } else if k > 0 {
        lemma_leading_zeros((k - 1) as nat, s);
        assert((zeros + s).drop_last() =~= Seq::new((k - 1) as nat, |i: int| '0') + s);
    } else {
        assert(zeros + s =~= s);
    }
}

/// Files of different numbers have different names.
pub proof fn law_file_names_differ(a: usize, b: usize, suffix: Seq<char>)
    requires
        a != b,
    ensures
        five_digits(a as nat) + suffix != five_digits(b as nat) + suffix,
{
    let x = five_digits(a as nat) + suffix;
    let y = five_digits(b as nat) + suffix;
    if x == y {
        assert(five_digits(a as nat) =~= x.take(x.len() - suffix.len()));
        assert(five_digits(b as nat) =~= y.take(y.len() - suffix.len()));
        lemma_five_digits(a as nat);
        lemma_five_digits(b as nat);
    }
}

/// `std::format!`, with a number padded with zeros to five digits, a dot and an
/// extension.
#[verifier::external_body]
fn file_name(id: usize, extension: &str) -> (name: String)
    ensures
        name@ == five_digits(id as nat) + seq!['.'] + extension@,
{
    format!("{:05}.{}", id, extension)
}

/// The name of the file of a table.
pub fn sst_file_name(id: usize) -> (name: String)
    ensures
        name@ == five_digits(id as nat) + seq!['.', 's', 's', 't'],
{
    proof {
        reveal_strlit("sst");
    }
    let name = file_name(id, "sst");
    assert(name@ =~= five_digits(id as nat) + seq!['.', 's', 's', 't']);
    name
}

/// The name of the file of a write-ahead log.
pub fn wal_file_name(id: usize) -> (name: String)
    ensures
        name@ == five_digits(id as nat) + seq!['.', 'w', 'a', 'l'],
{
    proof {
        reveal_strlit("wal");
    }
    let name = file_name(id, "wal");
    assert(name@ =~= five_digits(id as nat) + seq!['.', 'w', 'a', 'l']);
    name
}

/// A decimal digit.
spec fn is_digit(c: char) -> bool {
    '0' as int <= c as int <= '9' as int
}

proof fn lemma_decimal_digits(n: nat)
    ensures
        forall|i: int| 0 <= i < decimal(n).len() ==> is_digit(#[trigger] decimal(n)[i]),
    decreases n,
{
    if n >= 10 {
        lemma_decimal_digits(n / 10);
        assert forall|i: int| 0 <= i < decimal(n).len() implies is_digit(
            #[trigger] decimal(n)[i],
        ) by {
            if i < decimal(n / 10).len() {
                assert(decimal(n)[i] == decimal(n / 10)[i]);
            }
        }
    }
}

/// The number that five digits or more stand for is the number they were
/// made from.
proof fn lemma_five_digits(n: nat)
    ensures
        number(five_digits(n)) == n,
        forall|i: int| 0 <= i < five_digits(n).len() ==> is_digit(#[trigger] five_digits(n)[i]),
{
    lemma_decimal(n);
    lemma_decimal_digits(n);
    lemma_leading_zeros((five_digits(n).len() - decimal(n).len()) as nat, decimal(n));
}

/// The first of some digits stand for a number that is no larger.
proof fn lemma_number_prefix(s: Seq<char>, n: int)
    requires
        0 <= n <= s.len(),
        forall|i: int| 0 <= i < s.len() ==> is_digit(#[trigger] s[i]),
    ensures
        0 <= number(s.take(n)) <= number(s),
    decreases s.len(),
{
    if s.len() == 0 {
        assert(s.take(n) =~= s);
    } else {
        let init = s.drop_last();
        assert forall|i: int| 0 <= i < init.len() implies is_digit(#[trigger] init[i]) by {
            assert(init[i] == s[i]);
        }
        assert(is_digit(s[s.len() - 1]));
        lemma_number_prefix(init, init.len() as int);
        assert(init.take(init.len() as int) =~= init);
        if n == s.len() {
            assert(s.take(n) =~= s);
        } else {
            lemma_number_prefix(init, n);
            assert(init.take(n) =~= s.take(n));
        }
    }
}

/// Whether the two strings are the same.
fn same_str(a: &str, b: &str) -> (r: bool)
    ensures
        r == (a@ == b@),
{
    let n: usize = a.unicode_len();
    if n != b.unicode_len() {
        return false;
    }
    let mut i: usize = 0;
    while i < n
        invariant
            n == a@.len(),
            n == b@.len(),
            i <= n,
            forall|j: int| 0 <= j < i ==> a@[j] == b@[j],
        decreases n - i,
    {
        if a.get_char(i) != b.get_char(i) {
            return false;
        }
        i = i + 1;
    }
    assert(a@ =~= b@);
    true
}

/// The number of the table whose file has this name; there is none if no file
/// of a table has it.
pub fn sst_id_of(name: &str) -> (r: Option<usize>)
    ensures
        match r {
            Some(id) => name@ == five_digits(id as nat) + seq!['.', 's', 's', 't'],
            None => forall|id: usize|
                name@ != #[trigger] five_digits(id as nat) + seq!['.', 's', 's', 't'],
        },
{
    let len: usize = name.unicode_len();
    let ghost suffix = seq!['.', 's', 's', 't'];
    if len < 4 {
        return None;
    }
    let n: usize = len - 4;
    let ghost digits = name@.take(n as int);
    proof {
        assert forall|id: usize| name@ == #[trigger] five_digits(id as nat) + suffix implies digits
            == five_digits(id as nat) by {
            assert(digits =~= five_digits(id as nat));
        }
    }
    let mut id: usize = 0;
    let mut i: usize = 0;
    assert(digits.take(0) =~= Seq::<char>::empty());
    while i < n
        invariant
            i <= n <= name@.len(),
            digits == name@.take(n as int),
            id == number(digits.take(i as int)),
            forall|x: usize|
                name@ == #[trigger] five_digits(x as nat) + suffix ==> digits == five_digits(
                    x as nat,
                ),
            suffix == seq!['.', 's', 's', 't'],
        decreases n - i,
    {
        let c: char = name.get_char(i);
        assert(c == digits[i as int]);
        assert(digits.take(i + 1).drop_last() =~= digits.take(i as int));
        proof {
            assert forall|x: usize| name@ == #[trigger] five_digits(x as nat) + suffix implies
                is_digit(c) && number(digits.take(i + 1)) <= usize::MAX by {
                lemma_five_digits(x as nat);
                lemma_number_prefix(digits, i + 1);
            }
        }
        if c < '0' || '9' < c {
            return None;
        }
        let d: usize = (c as u32 - '0' as u32) as usize;
        assert(number(digits.take(i + 1)) == 10 * id + d);
        if id > (usize::MAX - d) / 10 {
            return None;
        }
        id = id * 10 + d;
        i = i + 1;
    }
    assert(digits.take(n as int) =~= digits);
    proof {
        assert forall|x: usize| name@ == #[trigger] five_digits(x as nat) + suffix implies x
            == id by {
            lemma_five_digits(x as nat);
        }
    }
    if same_str(name, sst_file_name(id).as_str()) {
        Some(id)
    } else {
        None
    }
}

/// The digits of a number are those of its tenth part and the last one.
pub proof fn law_decimal(n: nat, d: nat)
    requires
        d < 10,
    ensures
        n > 0 ==> decimal(10 * n + d) == decimal(n).push((48 + d) as char),
        decimal(d) == seq![(48 + d) as char],
{
}

/// Numbers below 100000 are padded with zeros to five digits, and no other is
/// padded.
pub proof fn law_five_digits(n: nat)
    ensures
        n < 100000 ==> {
            &&& five_digits(n).len() == 5
            &&& five_digits(n)[0] as int == 48 + n / 10000
            &&& five_digits(n)[1] as int == 48 + n / 1000 % 10
            &&& five_digits(n)[2] as int == 48 + n / 100 % 10
            &&& five_digits(n)[3] as int == 48 + n / 10 % 10
            &&& five_digits(n)[4] as int == 48 + n % 10
        },
        n >= 10000 ==> five_digits(n) == decimal(n),
{
    reveal_with_fuel(decimal, 6);
    if n >= 10000 {
        lemma_decimal_long(n);
        assert(five_digits(n) =~= decimal(n));
    }
}

proof fn lemma_decimal_long(n: nat)
    requires
        n >= 10000,
    ensures
        decimal(n).len() >= 5,
    decreases n,
{
    reveal_with_fuel(decimal, 6);
    if n >= 100000 {
        lemma_decimal_long(n / 10);
    }
}

} // verus!
