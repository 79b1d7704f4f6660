//! Text for display: integers in decimal, rows and matrices as nested,
//! bracketed, comma-separated lists, e.g. `[[1, 0],\n[0, 1]]`.
use vstd::prelude::*;

verus! {

/// The decimal digit for `d`, where `0 <= d < 10`.
pub open spec fn digit_char(d: int) -> char {
    seq!['0', '1', '2', '3', '4', '5', '6', '7', '8', '9'][d]
}

/// `n` in decimal, without leading zeros.
pub open spec fn decimal(n: nat) -> Seq<char>
    decreases n,
{
    if n < 10 {
        seq![digit_char(n as int)]
    } else {
        decimal(n / 10).push(digit_char((n % 10) as int))
    }
}

/// `x` in decimal, with a leading `-` where it is negative.
pub open spec fn int_text(x: int) -> Seq<char> {
    if x < 0 {
        seq!['-'] + decimal((-x) as nat)
    } else {
        decimal(x as nat)
    }
}

/// The parts one after another, with `sep` between each two.
pub open spec fn joined(parts: Seq<Seq<char>>, sep: Seq<char>) -> Seq<char>
    decreases parts.len(),
{
    if parts.len() == 0 {
        seq![]
    } else if parts.len() == 1 {
        parts[0]
    } else {
        joined(parts.drop_last(), sep) + sep + parts.last()
    }
}

/// A row as `[a, b, c]`.
pub open spec fn row_text(r: Seq<i64>) -> Seq<char> {
    seq!['['] + joined(r.map_values(|x: i64| int_text(x as int)), seq![',', ' ']) + seq![']']
}

/// A matrix as its rows' text between brackets, one row per line.
pub open spec fn matrix_text(m: Seq<Seq<i64>>) -> Seq<char> {
    seq!['['] + joined(m.map_values(|r: Seq<i64>| row_text(r)), seq![',', '\n']) + seq![']']
}

/// Joining one more part extends the text by the separator and that part.
pub proof fn lemma_joined_push(parts: Seq<Seq<char>>, sep: Seq<char>, p: Seq<char>)
    ensures
        joined(parts.push(p), sep) == if parts.len() == 0 {
            p
        } else {
            joined(parts, sep) + sep + p
        },
{
    assert(parts.push(p).drop_last() =~= parts);
}

fn digit_str(d: u64) -> (r: &'static str)
    requires
        d < 10,
    ensures
        r@ == seq![digit_char(d as int)],
{
    proof {
        reveal_strlit("0");
        reveal_strlit("1");
        reveal_strlit("2");
        reveal_strlit("3");
        reveal_strlit("4");
        reveal_strlit("5");
        reveal_strlit("6");
        reveal_strlit("7");
        reveal_strlit("8");
        reveal_strlit("9");
    }
    let r = if d == 0 {
        "0"
    } else if d == 1 {
        "1"
    } else if d == 2 {
        "2"
    } else if d == 3 {
        "3"
    } else if d == 4 {
        "4"
    } else if d == 5 {
        "5"
    } else if d == 6 {
        "6"
    } else if d == 7 {
        "7"
    } else if d == 8 {
        "8"
    } else {
        "9"
    };
    assert(r@ =~= seq![digit_char(d as int)]);
    r
}

fn push_decimal(s: &mut String, n: u64)
    ensures
        final(s)@ == old(s)@ + decimal(n as nat),
    decreases n,
{
    if n >= 10 {
        push_decimal(s, n / 10);
    }
    s.append(digit_str(n % 10));
    assert(final(s)@ =~= old(s)@ + decimal(n as nat));
}

/// Appends `x` in decimal.
pub fn push_int(s: &mut String, x: i64)
    ensures
        final(s)@ == old(s)@ + int_text(x as int),
{
    if x < 0 {
        proof {
            reveal_strlit("-");
        }
        s.append("-");
        let u: u64 = ((-(x + 1)) as u64) + 1;
        push_decimal(s, u);
        assert(final(s)@ =~= old(s)@ + int_text(x as int));
    } else {
        push_decimal(s, x as u64);
    }
}

/// Appends a row as `[a, b, c]`.
pub fn push_row(s: &mut String, r: &Vec<i64>)
    ensures
        final(s)@ == old(s)@ + row_text(r@),
{
    let ghost start = s@;
    let ghost texts = r@.map_values(|x: i64| int_text(x as int));
    proof {
        reveal_strlit("[");
    }
    s.append("[");
    let mut j: usize = 0;
    while j < r.len()
        invariant
            0 <= j <= r.len(),
            texts == r@.map_values(|x: i64| int_text(x as int)),
            s@ == start + seq!['['] + joined(texts.subrange(0, j as int), seq![',', ' ']),
        decreases r.len() - j,
    {
        proof {
            lemma_joined_push(texts.subrange(0, j as int), seq![',', ' '], texts[j as int]);
            assert(texts.subrange(0, j as int).push(texts[j as int]) =~= texts.subrange(
                0,
                j + 1,
            ));
        }
        let ghost before = s@;
        assert(texts[j as int] == int_text(r@[j as int] as int));
        proof {
            reveal_strlit(", ");
        }
        assert(", "@ =~= seq![',', ' ']);
        if j > 0 {
            s.append(", ");
        }
        assert(j > 0 ==> s@ == before + seq![',', ' ']);
        assert(j == 0 ==> s@ == before);
        push_int(s, r[j]);
        j = j + 1;
        assert(s@ =~= start + seq!['['] + joined(texts.subrange(0, j as int), seq![',', ' ']));
    }
    proof {
        reveal_strlit("]");
    }
    s.append("]");
    assert(texts.subrange(0, r@.len() as int) =~= texts);
    assert(s@ =~= start + row_text(r@));
}

} // verus!
