//! Serialising folded stacks into the folded-stack text protocol: one line
//! per call-stack, frame names root-to-leaf joined by `;`, a space, the
//! decimal value, a newline.

use vstd::prelude::*;

use crate::folded::FoldedStacks;

verus! {

/// The decimal digit character for `d` (meaningful for 0 through 9).
pub open spec fn digit_char(d: int) -> char {
    if d == 0 {
        '0'
    } else if d == 1 {
        '1'
    } else if d == 2 {
        '2'
    } else if d == 3 {
        '3'
    } else if d == 4 {
        '4'
    } else if d == 5 {
        '5'
    } else if d == 6 {
        '6'
    } else if d == 7 {
        '7'
    } else if d == 8 {
        '8'
    } else {
        '9'
    }
}

/// The decimal numeral of `x`, most significant digit first, no sign and
/// no leading zeroes (a single `0` for zero).
pub open spec fn dec_of(x: nat) -> Seq<char>
    decreases x,
{
    if x < 10 {
        seq![digit_char(x as int)]
    } else {
        dec_of(x / 10).push(digit_char((x % 10) as int))
    }
}

/// The frame names joined by `;`, last name first: capture order is
/// innermost-first, the protocol wants root-to-leaf.
pub open spec fn join_rev(stack: Seq<Seq<char>>) -> Seq<char>
    decreases stack.len(),
{
    if stack.len() == 0 {
        Seq::empty()
    } else if stack.len() == 1 {
        stack[0]
    } else {
        stack.last() + ";"@ + join_rev(stack.drop_last())
    }
}

/// One output line for one folded call-stack.
pub open spec fn line_of(stack: Seq<Seq<char>>, value: u64) -> Seq<char> {
    join_rev(stack) + " "@ + dec_of(value as nat) + "\n"@
}

/// The serialised text of a whole mapping, entries in their held order.
pub open spec fn encode_entries(s: Seq<(Seq<Seq<char>>, u64)>) -> Seq<char>
    decreases s.len(),
{
    if s.len() == 0 {
        Seq::empty()
    } else {
        encode_entries(s.drop_last()) + line_of(s.last().0, s.last().1)
    }
}

/// Putting a name in front of a non-empty stack appends `;` and that name
/// to the joined text.
proof fn lemma_join_rev_front(s: Seq<Seq<char>>, x: Seq<char>)
    requires
        s.len() >= 1,
    ensures
        join_rev(seq![x] + s) == join_rev(s) + ";"@ + x,
    decreases s.len(),
{
    let t = seq![x] + s;
    if s.len() == 1 {
        assert(t.len() == 2);
        assert(t.drop_last() =~= seq![x]);
        assert(t[1] == s[0]);
        assert(t.last() == s[0]);
        assert(seq![x].len() == 1 && seq![x][0] == x);
        assert(join_rev(seq![x]) == x);
        assert(join_rev(t) == t.last() + ";"@ + join_rev(t.drop_last()));
        assert(join_rev(t) == s[0] + ";"@ + x);
        assert(join_rev(s) == s[0]);
    } else {
        assert(t.last() == s.last());
        assert(t.drop_last() =~= seq![x] + s.drop_last());
        lemma_join_rev_front(s.drop_last(), x);
        assert(join_rev(t) == s.last() + ";"@ + (join_rev(s.drop_last()) + ";"@ + x));
        assert(s.last() + ";"@ + (join_rev(s.drop_last()) + ";"@ + x) =~= (s.last() + ";"@
            + join_rev(s.drop_last())) + ";"@ + x);
    }
}

/// The one-character text of a decimal digit.
fn digit_str(d: u64) -> (r: &'static str)
    requires
        d < 10,
    ensures
        r@ == seq![digit_char(d as int)],
{
    let r = match d {
        0 => "0",
        1 => "1",
        2 => "2",
        3 => "3",
        4 => "4",
        5 => "5",
        6 => "6",
        7 => "7",
        8 => "8",
        _ => "9",
    };
    proof {
        reveal_strlit("0");
        reveal_strlit("1");
        reveal_strlit("2");
        reveal_strlit("3");
        reveal_strlit("4");
        reveal_strlit("5");
        reveal_strlit("6");
        reveal_strlit("7");
        reveal_strlit("8");
        reveal_strlit("9");
        assert(r@ =~= seq![digit_char(d as int)]);
    }
    r
}

/// Appends the decimal numeral of `x`.
fn push_dec(out: &mut String, x: u64)
    ensures
        final(out)@ == old(out)@ + dec_of(x as nat),
    decreases x,
{
    if x >= 10 {
        assert(x / 10 < x);
        push_dec(out, x / 10);
        let ghost mid = out@;
        out.append(digit_str(x % 10));
        proof {
            assert(out@ == mid + seq![digit_char((x as nat % 10) as int)]);
            assert(dec_of(x as nat) =~= dec_of(x as nat / 10) + seq![
                digit_char((x as nat % 10) as int),
            ]);
            assert(out@ =~= old(out)@ + dec_of(x as nat));
        }
    } else {
        out.append(digit_str(x));
        proof {
            assert(out@ =~= old(out)@ + dec_of(x as nat));
        }
    }
}

/// Serialises a folded-stacks mapping into the text protocol, one line per
/// held entry, in the held order.
#[verifier::loop_isolation(false)]
pub fn encode_folded(f: &FoldedStacks) -> (r: String)
    ensures
        r@ == encode_entries(f.entries_seq()),
{
    let ghost es = f.entries_seq();
    let mut out = String::new();
    let n: usize = f.entries.len();
    let mut i: usize = 0;
    proof {
        assert(es.take(0) =~= Seq::<(Seq<Seq<char>>, u64)>::empty());
    }
    while i < n
        invariant
            0 <= i <= n,
            out@ == encode_entries(es.take(i as int)),
        decreases n - i,
    {
        let e = &f.entries[i];
        let ghost stack = es[i as int].0;
        assert(stack == e.stack.deep_view());
        let ghost base = out@;
        let m: usize = e.stack.len();
        let mut j: usize = 0;
        proof {
            assert(stack.subrange(m as int, m as int) =~= Seq::<Seq<char>>::empty());
        }
        while j < m
            invariant
                0 <= j <= m,
                out@ == base + join_rev(stack.subrange(m - j, m as int)),
            decreases m - j,
        {
            if j > 0 {
                out.append(";");
            }
            out.append(e.stack[m - 1 - j].as_str());
            proof {
                let w = stack.subrange(m - j, m as int);
                let w1 = stack.subrange(m - j - 1, m as int);
                assert(stack[m - 1 - j] == e.stack@[m - 1 - j]@);
                if j == 0 {
                    assert(w1 =~= seq![stack[m - 1]]);
                    assert(join_rev(w1) == stack[m - 1]);
                    assert(out@ =~= base + join_rev(w1));
                } else {
                    assert(w1 =~= seq![stack[m - j - 1]] + w);
                    lemma_join_rev_front(w, stack[m - j - 1]);
                    assert(out@ =~= base + (join_rev(w) + ";"@ + stack[m - j - 1]));
                    assert(base + (join_rev(w) + ";"@ + stack[m - j - 1]) =~= base + join_rev(w1));
                }
            }
            j += 1;
        }
        proof {
            assert(stack.subrange(0, m as int) =~= stack);
        }
        out.append(" ");
        push_dec(&mut out, e.value);
        out.append("\n");
        proof {
            assert(es[i as int].1 == e.value);
            assert(out@ =~= base + line_of(es[i as int].0, es[i as int].1));
            assert(es.take(i + 1).drop_last() =~= es.take(i as int));
            assert(es.take(i + 1).last() == es[i as int]);
            assert(out@ =~= encode_entries(es.take(i + 1)));
        }
        i += 1;
    }
    proof {
        assert(es.take(n as int) =~= es);
    }
    out
}

} // verus!
