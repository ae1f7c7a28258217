use vstd::prelude::*;

verus! {

/// The display character for one decimal digit.
pub open spec fn digit_char(d: int) -> char {
    if d == 0 {
        '0'
    } else if d == 1 {
        '1'
    } else if d == 2 {
        '2'
    } else if d == 3 {
        '3'
    } else if d == 4 {
        '4'
    } else if d == 5 {
        '5'
    } else if d == 6 {
        '6'
    } else if d == 7 {
        '7'
    } else if d == 8 {
        '8'
    } else {
        '9'
    }
}

/// The decimal digits of `n`, most significant first, with no leading zeros
/// (a single `'0'` for zero).
pub open spec fn spec_digits(n: nat) -> Seq<char>
    decreases n,
{
    if n < 10 {
        seq![digit_char(n as int)]
    } else {
        spec_digits(n / 10).push(digit_char((n % 10) as int))
    }
}

/// The decimal rendering of `n`: a `'-'` sign for negatives, then the digits.
pub open spec fn spec_int_label(n: int) -> Seq<char> {
    if n < 0 {
        seq!['-'] + spec_digits((-n) as nat)
    } else {
        spec_digits(n as nat)
    }
}

/// The coordinate label `"(x, y)"` for a pair of integers.
pub open spec fn spec_coord_label(x: int, y: int) -> Seq<char> {
    seq!['('] + spec_int_label(x) + seq![',', ' '] + spec_int_label(y) + seq![')']
}

/// Relies on std's `FromIterator` impl for `String`: collecting an iterator of
/// chars yields the string of exactly those characters, in order.
#[verifier::external_body]
pub(crate) fn chars_to_string(v: &Vec<char>) -> (s: String)
    ensures
        s@ == v@,
{
    v.iter().collect()
}

fn digit_of(d: u64) -> (c: char)
    requires
        d < 10,
    ensures
        c == digit_char(d as int),
{
    if d == 0 {
        '0'
    } else if d == 1 {
        '1'
    } else if d == 2 {
        '2'
    } else if d == 3 {
        '3'
    } else if d == 4 {
        '4'
    } else if d == 5 {
        '5'
    } else if d == 6 {
        '6'
    } else if d == 7 {
        '7'
    } else if d == 8 {
        '8'
    } else {
        '9'
    }
}

fn push_digits(m: u64, out: &mut Vec<char>)
    ensures
        final(out)@ == old(out)@ + spec_digits(m as nat),
    decreases m,
{
    if m >= 10 {
        push_digits(m / 10, out);
    }
    let d = digit_of(m % 10);
    out.push(d);
    proof {
        assert(out@ =~= old(out)@ + spec_digits(m as nat));
    }
}

/// The decimal text of `n`, as written into the diagram for edge lengths and
/// coordinate labels.
pub fn int_label(n: i32) -> (s: String)
    ensures
        s@ == spec_int_label(n as int),
{
    let mut chars: Vec<char> = Vec::new();
    let m: u64;
    if n < 0 {
        chars.push('-');
        m = (-(n as i64)) as u64;
    } else {
        m = n as u64;
    }
    push_digits(m, &mut chars);
    proof {
        assert(chars@ =~= spec_int_label(n as int));
    }
    chars_to_string(&chars)
}

/// The label `"(x, y)"` for a cell coordinate, as written beside corners and
/// centers of annotated rectangles.
pub fn coord_label(x: i32, y: i32) -> (s: String)
    ensures
        s@ == spec_coord_label(x as int, y as int),
{
    let mut chars: Vec<char> = Vec::new();
    chars.push('(');
    let lx = int_label(x);
    push_str_chars(&lx, &mut chars);
    chars.push(',');
    chars.push(' ');
    let ly = int_label(y);
    push_str_chars(&ly, &mut chars);
    chars.push(')');
    proof {
        assert(chars@ =~= spec_coord_label(x as int, y as int));
    }
    chars_to_string(&chars)
}

fn push_str_chars(s: &String, out: &mut Vec<char>)
    ensures
        final(out)@ == old(out)@ + s@,
{
    let n: usize = s.as_str().unicode_len();
    let mut i: usize = 0;
    while i < n
        invariant
            n == s@.len(),
            i <= n,
            out@ == old(out)@ + s@.take(i as int),
        decreases n - i,
    {
        let c = s.as_str().get_char(i);
        out.push(c);
        proof {
            assert(old(out)@ + s@.take(i as int) + seq![s@[i as int]] =~= old(out)@ + s@.take(
                i as int + 1,
            ));
        }
        i = i + 1;
    }
    proof {
        assert(s@.take(n as int) =~= s@);
    }
}

} // verus!
