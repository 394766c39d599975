//! Rendering of sorted records as device-tree source fragments, one
//! `gpios = <...>` line per record.

use vstd::prelude::*;
use vstd::string::StringExecFns;
use crate::decode::GpioDesc;

verus! {

/// The decimal digit character for `d`, a value from 0 to 9.
pub open spec fn digit_char(d: int) -> char {
    if d == 0 {
        '0'
    } else if d == 1 {
        '1'
    } else if d == 2 {
        '2'
    } else if d == 3 {
        '3'
    } else if d == 4 {
        '4'
    } else if d == 5 {
        '5'
    } else if d == 6 {
        '6'
    } else if d == 7 {
        '7'
    } else if d == 8 {
        '8'
    } else {
        '9'
    }
}

/// `v` in decimal, most significant digit first, without leading zeros.
pub open spec fn dec_rep(v: int) -> Seq<char>
    decreases v,
{
    if v < 10 {
        seq![digit_char(v)]
    } else {
        dec_rep(v / 10).push(digit_char(v % 10))
    }
}

/// `v` in decimal, zero-padded to exactly 3 digits; exact for values
/// below 1000.
pub open spec fn zero_pad3(v: int) -> Seq<char> {
    seq![digit_char((v / 100) % 10), digit_char((v / 10) % 10), digit_char(v % 10)]
}

/// `s` padded on the right with spaces to at least 3 characters.
pub open spec fn left_pad3(s: Seq<char>) -> Seq<char> {
    if s.len() >= 3 {
        s
    } else if s.len() == 2 {
        s + seq![' ']
    } else {
        s + seq![' ', ' ']
    }
}

/// The output line for one record: the GPIO number zero-padded to 3
/// digits, the `gpios = <...>` fragment with bank `gpio / 32` and pin
/// `gpio % 32`, and a comment with the number left-aligned to 3 columns
/// and the description.
pub open spec fn line_of(gpio: u8, desc: Seq<char>) -> Seq<char> {
    zero_pad3(gpio as int) + "\tgpios = <&gpio"@ + dec_rep((gpio / 32) as int) + " "@
        + dec_rep((gpio % 32) as int) + " GPIO_ACTIVE_X>;\t/* gpio_"@
        + left_pad3(dec_rep(gpio as int)) + " "@ + desc + " */"@
}

fn digit_str(d: u8) -> (r: &'static str)
    requires
        d < 10,
    ensures
        r@ == seq![digit_char(d as int)],
{
    let r: &'static str = if d == 0 {
        "0"
    } else if d == 1 {
        "1"
    } else if d == 2 {
        "2"
    } else if d == 3 {
        "3"
    } else if d == 4 {
        "4"
    } else if d == 5 {
        "5"
    } else if d == 6 {
        "6"
    } else if d == 7 {
        "7"
    } else if d == 8 {
        "8"
    } else {
        "9"
    };
    proof {
        reveal_strlit("0");
        reveal_strlit("1");
        reveal_strlit("2");
        reveal_strlit("3");
        reveal_strlit("4");
        reveal_strlit("5");
        reveal_strlit("6");
        reveal_strlit("7");
        reveal_strlit("8");
        reveal_strlit("9");
        assert(r@ =~= seq![digit_char(d as int)]);
    }
    r
}

fn push_zero_pad3(out: &mut String, v: u8)
    ensures
        final(out)@ == old(out)@ + zero_pad3(v as int),
{
    out.append(digit_str((v / 100) % 10));
    out.append(digit_str((v / 10) % 10));
    out.append(digit_str(v % 10));
    proof {
        assert(final(out)@ =~= old(out)@ + zero_pad3(v as int));
    }
}

proof fn lemma_dec_rep_u8(v: int)
    requires
        0 <= v < 256,
    ensures
        v < 10 ==> dec_rep(v) == seq![digit_char(v)],
        10 <= v < 100 ==> dec_rep(v) == seq![digit_char(v / 10), digit_char(v % 10)],
        100 <= v ==> dec_rep(v) == seq![
            digit_char(v / 100),
            digit_char((v / 10) % 10),
            digit_char(v % 10),
        ],
{
    if v < 10 {
    } else if v < 100 {
        assert(1 <= v / 10 < 10);
        assert(dec_rep(v / 10) == seq![digit_char(v / 10)]);
        assert(dec_rep(v) == dec_rep(v / 10).push(digit_char(v % 10)));
        assert(dec_rep(v) =~= seq![digit_char(v / 10), digit_char(v % 10)]);
    } else {
        assert((v / 10) / 10 == v / 100) by (nonlinear_arith)
            requires 100 <= v < 256;
        assert(10 <= v / 10 < 100);
        assert(1 <= (v / 10) / 10 < 10);
        assert(dec_rep((v / 10) / 10) == seq![digit_char((v / 10) / 10)]);
        assert(dec_rep(v / 10) == dec_rep((v / 10) / 10).push(digit_char((v / 10) % 10)));
        assert(dec_rep(v / 10) =~= seq![digit_char(v / 100), digit_char((v / 10) % 10)]);
        assert(dec_rep(v) == dec_rep(v / 10).push(digit_char(v % 10)));
        assert(dec_rep(v) =~= seq![
            digit_char(v / 100),
            digit_char((v / 10) % 10),
            digit_char(v % 10),
        ]);
    }
}

fn push_dec(out: &mut String, v: u8)
    ensures
        final(out)@ == old(out)@ + dec_rep(v as int),
{
    proof {
        lemma_dec_rep_u8(v as int);
    }
    if v >= 100 {
        out.append(digit_str(v / 100));
        out.append(digit_str((v / 10) % 10));
        out.append(digit_str(v % 10));
        proof {
            assert(final(out)@ =~= old(out)@ + dec_rep(v as int));
        }
    } else if v >= 10 {
        out.append(digit_str(v / 10));
        out.append(digit_str(v % 10));
        proof {
            assert(final(out)@ =~= old(out)@ + dec_rep(v as int));
        }
    } else {
        out.append(digit_str(v));
        proof {
            assert(final(out)@ =~= old(out)@ + dec_rep(v as int));
        }
    }
}

fn push_left_pad3(out: &mut String, v: u8)
    ensures
        final(out)@ == old(out)@ + left_pad3(dec_rep(v as int)),
{
    proof {
        lemma_dec_rep_u8(v as int);
        reveal_strlit(" ");
        reveal_strlit("  ");
    }
    push_dec(out, v);
    if v < 10 {
        out.append("  ");
        proof {
            assert(final(out)@ =~= old(out)@ + left_pad3(dec_rep(v as int)));
        }
    } else if v < 100 {
        out.append(" ");
        proof {
            assert(final(out)@ =~= old(out)@ + left_pad3(dec_rep(v as int)));
        }
    } else {
        proof {
            assert(final(out)@ =~= old(out)@ + left_pad3(dec_rep(v as int)));
        }
    }
}

/// Render one record as its output line.
pub fn render_line(g: &GpioDesc) -> (r: String)
    ensures
        r@ == line_of(g.gpio, g.desc@),
{
    let mut out = String::new();
    push_zero_pad3(&mut out, g.gpio);
    out.append("\tgpios = <&gpio");
    push_dec(&mut out, g.gpio / 32);
    out.append(" ");
    push_dec(&mut out, g.gpio % 32);
    out.append(" GPIO_ACTIVE_X>;\t/* gpio_");
    push_left_pad3(&mut out, g.gpio);
    out.append(" ");
    out.append(g.desc.as_str());
    out.append(" */");
    proof {
        assert(out@ =~= line_of(g.gpio, g.desc@));
    }
    out
}

/// Render every record, in the order given, as one output line each.
pub fn render_lines(v: &Vec<GpioDesc>) -> (r: Vec<String>)
    ensures
        r@.len() == v@.len(),
        forall|i: int|
            0 <= i < v@.len() ==> #[trigger] r@[i]@ == line_of(v@[i].gpio, v@[i].desc@),
{
    let mut out: Vec<String> = Vec::new();
    let mut i: usize = 0;
    while i < v.len()
        invariant
            i <= v@.len(),
            out@.len() == i,
            forall|k: int|
                0 <= k < i ==> #[trigger] out@[k]@ == line_of(v@[k].gpio, v@[k].desc@),
        decreases v@.len() - i,
    {
        out.push(render_line(&v[i]));
        i = i + 1;
    }
    out
}

} // verus!
