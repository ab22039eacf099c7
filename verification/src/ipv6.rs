//! IPv6 addresses as sixteen plain bytes: colon-separated lowercase
//! hexadecimal text with the leftmost longest run of two or more zero groups
//! compressed to `::`.

use vstd::prelude::*;

verus! {

/// The character for one hexadecimal digit, lowercase.
pub open spec fn hex_digit_char(v: int) -> char
    recommends
        0 <= v < 16,
{
    if v < 10 {
        ((v + 48) as u8) as char
    } else {
        ((v + 87) as u8) as char
    }
}

/// The hexadecimal text of one 16-bit group, lowercase, without leading
/// zeros.
pub open spec fn group_text(g: u16) -> Seq<char> {
    if g < 0x10 {
        seq![hex_digit_char(g as int)]
    } else if g < 0x100 {
        seq![hex_digit_char((g >> 4) as int), hex_digit_char((g & 0xF) as int)]
    } else if g < 0x1000 {
        seq![
            hex_digit_char((g >> 8) as int),
            hex_digit_char(((g >> 4) & 0xF) as int),
            hex_digit_char((g & 0xF) as int),
        ]
    } else {
        seq![
            hex_digit_char((g >> 12) as int),
            hex_digit_char(((g >> 8) & 0xF) as int),
            hex_digit_char(((g >> 4) & 0xF) as int),
            hex_digit_char((g & 0xF) as int),
        ]
    }
}

/// The texts of the groups joined with `:` separators.
pub open spec fn joined_groups(gs: Seq<u16>) -> Seq<char>
    decreases gs.len(),
{
    if gs.len() == 0 {
        Seq::empty()
    } else if gs.len() == 1 {
        group_text(gs[0])
    } else {
        joined_groups(gs.drop_last()) + seq![':'] + group_text(gs.last())
    }
}

/// The length of the run of zero groups starting at `i`.
pub open spec fn zero_run_len(gs: Seq<u16>, i: int) -> int
    decreases gs.len() - i,
{
    if i < 0 || i >= gs.len() || gs[i] != 0 {
        0
    } else {
        1 + zero_run_len(gs, i + 1)
    }
}

/// The start of the leftmost longest run of zero groups at or after `i`.
pub open spec fn best_zero_run_from(gs: Seq<u16>, i: int) -> int
    decreases gs.len() - i,
{
    if i < 0 || i >= gs.len() {
        i
    } else {
        let rest = best_zero_run_from(gs, i + 1);
        if zero_run_len(gs, i) >= zero_run_len(gs, rest) {
            i
        } else {
            rest
        }
    }
}

/// The canonical text of an IPv6 address given as eight 16-bit groups: the
/// leftmost longest run of two or more zero groups is compressed to `::`.
pub open spec fn ipv6_text(gs: Seq<u16>) -> Seq<char>
    recommends
        gs.len() == 8,
{
    let s = best_zero_run_from(gs, 0);
    let r = zero_run_len(gs, s);
    if r >= 2 {
        joined_groups(gs.subrange(0, s)) + seq![':', ':'] + joined_groups(
            gs.subrange(s + r, gs.len() as int),
        )
    } else {
        joined_groups(gs)
    }
}

/// The eight 16-bit groups of an address given as sixteen bytes, high byte
/// of each group first.
pub open spec fn groups_of_bytes(bs: Seq<u8>) -> Seq<u16>
    recommends
        bs.len() == 16,
{
    Seq::new(8, |i: int| ((bs[2 * i] as u16) << 8) | (bs[2 * i + 1] as u16))
}

/// The character for one hexadecimal digit, lowercase.
fn hex_char(v: u16) -> (c: char)
    requires
        v < 16,
    ensures
        c == hex_digit_char(v as int),
{
    if v < 10 {
        (v as u8 + 48) as char
    } else {
        (v as u8 + 87) as char
    }
}

/// Appends the hexadecimal text of one group.
fn push_group_text(out: &mut String, g: u16)
    ensures
        final(out)@ == old(out)@ + group_text(g),
{
    assert(g >> 4 < 0x1000 && g >> 8 < 0x100 && g >> 12 < 0x10) by (bit_vector);
    assert((g & 0xF) < 0x10 && ((g >> 4) & 0xF) < 0x10 && ((g >> 8) & 0xF) < 0x10)
        by (bit_vector);
    assert(g < 0x100 ==> g >> 4 < 0x10) by (bit_vector);
    assert(g < 0x1000 ==> g >> 8 < 0x10) by (bit_vector);
    if g < 0x10 {
        out.push(hex_char(g));
        assert(out@ =~= old(out)@ + group_text(g));
    } else if g < 0x100 {
        out.push(hex_char(g >> 4));
        out.push(hex_char(g & 0xF));
        assert(out@ =~= old(out)@ + group_text(g));
    } else if g < 0x1000 {
        out.push(hex_char(g >> 8));
        out.push(hex_char((g >> 4) & 0xF));
        out.push(hex_char(g & 0xF));
        assert(out@ =~= old(out)@ + group_text(g));
    } else {
        out.push(hex_char(g >> 12));
        out.push(hex_char((g >> 8) & 0xF));
        out.push(hex_char((g >> 4) & 0xF));
        out.push(hex_char(g & 0xF));
        assert(out@ =~= old(out)@ + group_text(g));
    }
}

/// Appends the groups in `[from, to)` joined with `:` separators.
fn append_joined(out: &mut String, g: &Vec<u16>, from: usize, to: usize)
    requires
        from <= to <= g@.len(),
    ensures
        final(out)@ == old(out)@ + joined_groups(g@.subrange(from as int, to as int)),
{
    let ghost base = old(out)@;
    let mut i = from;
    proof {
        assert(g@.subrange(from as int, from as int) =~= Seq::<u16>::empty());
        assert(out@ =~= base + joined_groups(g@.subrange(from as int, from as int)));
    }
    while i < to
        invariant
            from <= i <= to <= g@.len(),
            out@ == base + joined_groups(g@.subrange(from as int, i as int)),
        decreases to - i,
    {
        if i > from {
            out.push(':');
        }
        push_group_text(out, g[i]);
        proof {
            let s1 = g@.subrange(from as int, i as int + 1);
            assert(s1.drop_last() =~= g@.subrange(from as int, i as int));
            assert(s1.last() == g@[i as int]);
            assert(out@ =~= base + joined_groups(s1));
        }
        i = i + 1;
    }
}

/// The length of the run of zero groups starting at `i`.
fn zero_run_at(g: &Vec<u16>, i: usize) -> (r: usize)
    requires
        i <= g@.len(),
    ensures
        r as int == zero_run_len(g@, i as int),
        i + r <= g@.len(),
    decreases g@.len() - i,
{
    if i < g.len() && g[i] == 0 {
        let rest = zero_run_at(g, i + 1);
        rest + 1
    } else {
        0
    }
}

/// The start of the leftmost longest run of zero groups at or after `i`.
fn best_zero_run(g: &Vec<u16>, i: usize) -> (r: usize)
    requires
        i <= g@.len(),
    ensures
        r as int == best_zero_run_from(g@, i as int),
        i <= r <= g@.len(),
    decreases g@.len() - i,
{
    if i >= g.len() {
        return i;
    }
    let rest = best_zero_run(g, i + 1);
    let li = zero_run_at(g, i);
    let lr = zero_run_at(g, rest);
    if li >= lr {
        i
    } else {
        rest
    }
}

/// The canonical text of an IPv6 address given as its sixteen bytes.
pub fn ipv6_string(bytes: &Vec<u8>) -> (r: String)
    requires
        bytes@.len() == 16,
    ensures
        r@ == ipv6_text(groups_of_bytes(bytes@)),
{
    let mut g: Vec<u16> = Vec::new();
    let mut i: usize = 0;
    while i < 8
        invariant
            bytes@.len() == 16,
            i <= 8,
            g@.len() == i,
            forall|j: int| 0 <= j < i ==> g@[j] == groups_of_bytes(bytes@)[j],
        decreases 8 - i,
    {
        let hi = bytes[2 * i];
        let lo = bytes[2 * i + 1];
        let gr = ((hi as u16) << 8) | (lo as u16);
        g.push(gr);
        i = i + 1;
    }
    assert(g@ =~= groups_of_bytes(bytes@));
    let s = best_zero_run(&g, 0);
    let r = zero_run_at(&g, s);
    let mut out = String::new();
    if r >= 2 {
        append_joined(&mut out, &g, 0, s);
        out.push(':');
        out.push(':');
        append_joined(&mut out, &g, s + r, 8);
        assert(out@ =~= ipv6_text(g@));
    } else {
        append_joined(&mut out, &g, 0, 8);
        assert(g@.subrange(0, 8) =~= g@);
        assert(out@ =~= ipv6_text(g@));
    }
    out
}

} // verus!

verus! {

// ---------------------------------------------------------------------------
// Uniqueness of canonical text
// ---------------------------------------------------------------------------

/// A lowercase hexadecimal digit character.
pub open spec fn is_hex_digit(c: char) -> bool {
    (48 <= c as u32 <= 57) || (97 <= c as u32 <= 102)
}

/// The character code of one hexadecimal digit.
proof fn lemma_hex_digit_char_val(v: int)
    requires
        0 <= v < 16,
    ensures
        is_hex_digit(hex_digit_char(v)),
        hex_digit_char(v) as u32 == if v < 10 {
            v + 48
        } else {
            v + 87
        },
{
}

/// Every character of a group's text is a hexadecimal digit, and the length
/// of that text tells the group's magnitude class.
proof fn lemma_group_text_digits(g: u16)
    ensures
        1 <= group_text(g).len() <= 4,
        forall|i: int| 0 <= i < group_text(g).len() ==> is_hex_digit(#[trigger] group_text(g)[i]),
        (group_text(g).len() == 1) <==> g < 0x10,
        (group_text(g).len() == 2) <==> (0x10 <= g < 0x100),
        (group_text(g).len() == 3) <==> (0x100 <= g < 0x1000),
        (group_text(g).len() == 4) <==> g >= 0x1000,
{
    assert(g >> 4 < 0x1000 && g >> 8 < 0x100 && g >> 12 < 0x10) by (bit_vector);
    assert((g & 0xF) < 0x10 && ((g >> 4) & 0xF) < 0x10 && ((g >> 8) & 0xF) < 0x10) by (bit_vector);
    assert(g < 0x100 ==> g >> 4 < 0x10) by (bit_vector);
    assert(g < 0x1000 ==> g >> 8 < 0x10) by (bit_vector);
    if g < 0x10 {
        lemma_hex_digit_char_val(g as int);
        assert(group_text(g)[0] == hex_digit_char(g as int));
    } else if g < 0x100 {
        lemma_hex_digit_char_val((g >> 4) as int);
        lemma_hex_digit_char_val((g & 0xF) as int);
        assert(group_text(g)[0] == hex_digit_char((g >> 4) as int));
        assert(group_text(g)[1] == hex_digit_char((g & 0xF) as int));
    } else if g < 0x1000 {
        lemma_hex_digit_char_val((g >> 8) as int);
        lemma_hex_digit_char_val(((g >> 4) & 0xF) as int);
        lemma_hex_digit_char_val((g & 0xF) as int);
        assert(group_text(g)[0] == hex_digit_char((g >> 8) as int));
        assert(group_text(g)[1] == hex_digit_char(((g >> 4) & 0xF) as int));
        assert(group_text(g)[2] == hex_digit_char((g & 0xF) as int));
    } else {
        lemma_hex_digit_char_val((g >> 12) as int);
        lemma_hex_digit_char_val(((g >> 8) & 0xF) as int);
        lemma_hex_digit_char_val(((g >> 4) & 0xF) as int);
        lemma_hex_digit_char_val((g & 0xF) as int);
        assert(group_text(g)[0] == hex_digit_char((g >> 12) as int));
        assert(group_text(g)[1] == hex_digit_char(((g >> 8) & 0xF) as int));
        assert(group_text(g)[2] == hex_digit_char(((g >> 4) & 0xF) as int));
        assert(group_text(g)[3] == hex_digit_char((g & 0xF) as int));
    }
}

/// A group is recovered from its text: equal texts mean equal groups.
proof fn lemma_group_text_injective(g1: u16, g2: u16)
    requires
        group_text(g1) == group_text(g2),
    ensures
        g1 == g2,
{
    lemma_group_text_digits(g1);
    lemma_group_text_digits(g2);
    assert(g1 >> 4 < 0x1000 && g1 >> 8 < 0x100 && g1 >> 12 < 0x10) by (bit_vector);
    assert((g1 & 0xF) < 0x10 && ((g1 >> 4) & 0xF) < 0x10 && ((g1 >> 8) & 0xF) < 0x10)
        by (bit_vector);
    assert(g2 >> 4 < 0x1000 && g2 >> 8 < 0x100 && g2 >> 12 < 0x10) by (bit_vector);
    assert((g2 & 0xF) < 0x10 && ((g2 >> 4) & 0xF) < 0x10 && ((g2 >> 8) & 0xF) < 0x10)
        by (bit_vector);
    if g1 < 0x10 {
        assert(group_text(g1)[0] == hex_digit_char(g1 as int));
        assert(group_text(g2)[0] == hex_digit_char(g2 as int));
        assert(group_text(g1)[0] == group_text(g2)[0]);
        lemma_hex_digit_char_val(g1 as int);
        lemma_hex_digit_char_val(g2 as int);
    } else if g1 < 0x100 {
        assert(g1 < 0x100 ==> g1 >> 4 < 0x10) by (bit_vector);
        assert(g2 < 0x100 ==> g2 >> 4 < 0x10) by (bit_vector);
        assert(group_text(g1)[0] == hex_digit_char((g1 >> 4) as int));
        assert(group_text(g2)[0] == hex_digit_char((g2 >> 4) as int));
        assert(group_text(g1)[1] == hex_digit_char((g1 & 0xF) as int));
        assert(group_text(g2)[1] == hex_digit_char((g2 & 0xF) as int));
        assert(group_text(g1)[0] == group_text(g2)[0]);
        assert(group_text(g1)[1] == group_text(g2)[1]);
        lemma_hex_digit_char_val((g1 >> 4) as int);
        lemma_hex_digit_char_val((g2 >> 4) as int);
        lemma_hex_digit_char_val((g1 & 0xF) as int);
        lemma_hex_digit_char_val((g2 & 0xF) as int);
        assert(g1 >> 4 == g2 >> 4 && g1 & 0xF == g2 & 0xF && 0x10 <= g1 < 0x100 && 0x10 <= g2
            < 0x100 ==> g1 == g2) by (bit_vector);
    } else if g1 < 0x1000 {
        assert(g1 < 0x1000 ==> g1 >> 8 < 0x10) by (bit_vector);
        assert(g2 < 0x1000 ==> g2 >> 8 < 0x10) by (bit_vector);
        assert(group_text(g1)[0] == hex_digit_char((g1 >> 8) as int));
        assert(group_text(g2)[0] == hex_digit_char((g2 >> 8) as int));
        assert(group_text(g1)[1] == hex_digit_char(((g1 >> 4) & 0xF) as int));
        assert(group_text(g2)[1] == hex_digit_char(((g2 >> 4) & 0xF) as int));
        assert(group_text(g1)[2] == hex_digit_char((g1 & 0xF) as int));
        assert(group_text(g2)[2] == hex_digit_char((g2 & 0xF) as int));
        assert(group_text(g1)[0] == group_text(g2)[0]);
        assert(group_text(g1)[1] == group_text(g2)[1]);
        assert(group_text(g1)[2] == group_text(g2)[2]);
        lemma_hex_digit_char_val((g1 >> 8) as int);
        lemma_hex_digit_char_val((g2 >> 8) as int);
        lemma_hex_digit_char_val(((g1 >> 4) & 0xF) as int);
        lemma_hex_digit_char_val(((g2 >> 4) & 0xF) as int);
        lemma_hex_digit_char_val((g1 & 0xF) as int);
        lemma_hex_digit_char_val((g2 & 0xF) as int);
        assert(g1 >> 8 == g2 >> 8 && (g1 >> 4) & 0xF == (g2 >> 4) & 0xF && g1 & 0xF == g2 & 0xF
            && 0x100 <= g1 < 0x1000 && 0x100 <= g2 < 0x1000 ==> g1 == g2) by (bit_vector);
    } else {
        assert(group_text(g1)[0] == hex_digit_char((g1 >> 12) as int));
        assert(group_text(g2)[0] == hex_digit_char((g2 >> 12) as int));
        assert(group_text(g1)[1] == hex_digit_char(((g1 >> 8) & 0xF) as int));
        assert(group_text(g2)[1] == hex_digit_char(((g2 >> 8) & 0xF) as int));
        assert(group_text(g1)[2] == hex_digit_char(((g1 >> 4) & 0xF) as int));
        assert(group_text(g2)[2] == hex_digit_char(((g2 >> 4) & 0xF) as int));
        assert(group_text(g1)[3] == hex_digit_char((g1 & 0xF) as int));
        assert(group_text(g2)[3] == hex_digit_char((g2 & 0xF) as int));
        assert(group_text(g1)[0] == group_text(g2)[0]);
        assert(group_text(g1)[1] == group_text(g2)[1]);
        assert(group_text(g1)[2] == group_text(g2)[2]);
        assert(group_text(g1)[3] == group_text(g2)[3]);
        lemma_hex_digit_char_val((g1 >> 12) as int);
        lemma_hex_digit_char_val((g2 >> 12) as int);
        lemma_hex_digit_char_val(((g1 >> 8) & 0xF) as int);
        lemma_hex_digit_char_val(((g2 >> 8) & 0xF) as int);
        lemma_hex_digit_char_val(((g1 >> 4) & 0xF) as int);
        lemma_hex_digit_char_val(((g2 >> 4) & 0xF) as int);
        lemma_hex_digit_char_val((g1 & 0xF) as int);
        lemma_hex_digit_char_val((g2 & 0xF) as int);
        assert(g1 >> 12 == g2 >> 12 && (g1 >> 8) & 0xF == (g2 >> 8) & 0xF && (g1 >> 4) & 0xF == (
        g2 >> 4) & 0xF && g1 & 0xF == g2 & 0xF && g1 >= 0x1000 && g2 >= 0x1000 ==> g1 == g2)
            by (bit_vector);
    }
}

} // verus!

verus! {

/// The shape of joined group text: only hexadecimal digits and single
/// colons, digits at both ends, and no colon at all for a single group.
proof fn lemma_joined_shape(gs: Seq<u16>)
    ensures
        (joined_groups(gs).len() == 0) <==> (gs.len() == 0),
        forall|i: int|
            0 <= i < joined_groups(gs).len() ==> is_hex_digit(#[trigger] joined_groups(gs)[i])
                || joined_groups(gs)[i] == ':',
        forall|i: int|
            0 <= i && i + 1 < joined_groups(gs).len() && (#[trigger] joined_groups(gs)[i]) == ':'
                ==> joined_groups(gs)[i + 1] != ':',
        gs.len() > 0 ==> is_hex_digit(joined_groups(gs)[0]) && is_hex_digit(
            joined_groups(gs)[joined_groups(gs).len() - 1],
        ),
        gs.len() <= 1 ==> forall|i: int|
            0 <= i < joined_groups(gs).len() ==> is_hex_digit(#[trigger] joined_groups(gs)[i]),
    decreases gs.len(),
{
    if gs.len() == 0 {
    } else if gs.len() == 1 {
        lemma_group_text_digits(gs[0]);
    } else {
        lemma_joined_shape(gs.drop_last());
        lemma_group_text_digits(gs.last());
        let tp = joined_groups(gs.drop_last());
        let gt = group_text(gs.last());
        let t = joined_groups(gs);
        assert(t == tp + seq![':'] + gt);
        assert(gs.drop_last().len() == gs.len() - 1);
        assert forall|i: int| 0 <= i < t.len() implies is_hex_digit(#[trigger] t[i]) || t[i]
            == ':' by {
            if i < tp.len() {
                assert(t[i] == tp[i]);
            } else if i == tp.len() {
                assert(t[i] == ':');
            } else {
                assert(t[i] == gt[i - tp.len() - 1]);
            }
        }
        assert forall|i: int|
            0 <= i && i + 1 < t.len() && (#[trigger] t[i]) == ':' implies t[i + 1] != ':' by {
            if i + 1 < tp.len() {
                assert(t[i] == tp[i] && t[i + 1] == tp[i + 1]);
            } else if i + 1 == tp.len() {
                // the colon at tp.len() is preceded by tp's last digit
                assert(t[i] == tp[i]);
                assert(is_hex_digit(tp[tp.len() - 1]));
            } else if i == tp.len() {
                assert(t[i + 1] == gt[0]);
                assert(is_hex_digit(gt[0]));
            } else {
                assert(t[i] == gt[i - tp.len() - 1]);
                assert(is_hex_digit(gt[i - tp.len() - 1]));
            }
        }
        assert(t[0] == tp[0]);
        assert(t[t.len() - 1] == gt[gt.len() - 1]);
    }
}

/// Groups are recovered from their joined text: equal texts mean equal group
/// sequences.
proof fn lemma_joined_injective(x: Seq<u16>, y: Seq<u16>)
    requires
        joined_groups(x) == joined_groups(y),
    ensures
        x == y,
    decreases x.len(),
{
    lemma_joined_shape(x);
    lemma_joined_shape(y);
    let t = joined_groups(x);
    if x.len() == 0 {
        assert(y.len() == 0);
        assert(x =~= y);
    } else if x.len() == 1 {
        if y.len() >= 2 {
            // y's text carries a colon where x's is all digits
            let tpy = joined_groups(y.drop_last());
            assert(joined_groups(y) == tpy + seq![':'] + group_text(y.last()));
            assert(joined_groups(y)[tpy.len() as int] == ':');
            assert(is_hex_digit(t[tpy.len() as int]));
            assert(false);
        }
        assert(y.len() == 1);
        assert(group_text(x[0]) == group_text(y[0]));
        lemma_group_text_injective(x[0], y[0]);
        assert(x =~= y);
    } else {
        if y.len() <= 1 {
            let tpx = joined_groups(x.drop_last());
            assert(t == tpx + seq![':'] + group_text(x.last()));
            assert(t[tpx.len() as int] == ':');
            assert(is_hex_digit(joined_groups(y)[tpx.len() as int]));
            assert(false);
        }
        let tpx = joined_groups(x.drop_last());
        let gx = group_text(x.last());
        let tpy = joined_groups(y.drop_last());
        let gy = group_text(y.last());
        assert(t == tpx + seq![':'] + gx);
        assert(t == tpy + seq![':'] + gy);
        lemma_joined_shape(x.drop_last());
        lemma_joined_shape(y.drop_last());
        lemma_group_text_digits(x.last());
        lemma_group_text_digits(y.last());
        let px = tpx.len() as int;
        let py = tpy.len() as int;
        if px < py {
            // position py is a colon in y's split but lies inside x's last
            // group text, which holds digits only
            assert(t[py] == ':');
            assert(py > px);
            assert(t[py] == gx[py - px - 1]);
            assert(is_hex_digit(gx[py - px - 1]));
            assert(false);
        }
        if py < px {
            assert(t[px] == ':');
            assert(t[px] == gy[px - py - 1]);
            assert(is_hex_digit(gy[px - py - 1]));
            assert(false);
        }
        assert(px == py);
        assert(gx.len() == gy.len());
        assert(gx =~= gy) by {
            assert forall|i: int| 0 <= i < gx.len() implies gx[i] == gy[i] by {
                assert(gx[i] == t[px + 1 + i]);
                assert(gy[i] == t[py + 1 + i]);
            }
        }
        lemma_group_text_injective(x.last(), y.last());
        assert(tpx =~= tpy) by {
            assert forall|i: int| 0 <= i < px implies tpx[i] == tpy[i] by {
                assert(tpx[i] == t[i]);
                assert(tpy[i] == t[i]);
            }
        }
        lemma_joined_injective(x.drop_last(), y.drop_last());
        assert(x =~= y) by {
            assert(x.drop_last() == y.drop_last());
            assert forall|i: int| 0 <= i < x.len() implies x[i] == y[i] by {
                if i < x.len() - 1 {
                    assert(x[i] == x.drop_last()[i]);
                    assert(y[i] == y.drop_last()[i]);
                }
            }
        }
    }
}

} // verus!

verus! {

/// The zero run starting at `i` stays inside the sequence and covers zero
/// groups only.
proof fn lemma_zero_run_props(gs: Seq<u16>, i: int)
    requires
        0 <= i <= gs.len(),
    ensures
        0 <= zero_run_len(gs, i),
        i + zero_run_len(gs, i) <= gs.len(),
        forall|k: int| i <= k < i + zero_run_len(gs, i) ==> gs[k] == 0,
    decreases gs.len() - i,
{
    if i < gs.len() && gs[i] == 0 {
        lemma_zero_run_props(gs, i + 1);
    }
}

/// The chosen run start lies inside the sequence's bounds.
proof fn lemma_best_range(gs: Seq<u16>, i: int)
    requires
        0 <= i <= gs.len(),
    ensures
        i <= best_zero_run_from(gs, i) <= gs.len(),
    decreases gs.len() - i,
{
    if i < gs.len() {
        lemma_best_range(gs, i + 1);
    }
}

/// Law: canonical IPv6 text determines its address. Formatting eight groups
/// and reading the text back yields the same eight groups: two addresses
/// with the same canonical text are the same address.
pub proof fn lemma_canonical_ipv6_unique(gs1: Seq<u16>, gs2: Seq<u16>)
    requires
        gs1.len() == 8,
        gs2.len() == 8,
        ipv6_text(gs1) == ipv6_text(gs2),
    ensures
        gs1 == gs2,
{
    let s1 = best_zero_run_from(gs1, 0);
    let r1 = zero_run_len(gs1, s1);
    let s2 = best_zero_run_from(gs2, 0);
    let r2 = zero_run_len(gs2, s2);
    lemma_best_range(gs1, 0);
    lemma_best_range(gs2, 0);
    lemma_zero_run_props(gs1, s1);
    lemma_zero_run_props(gs2, s2);
    let t = ipv6_text(gs1);
    if r1 >= 2 && r2 >= 2 {
        let a1 = gs1.subrange(0, s1);
        let b1 = gs1.subrange(s1 + r1, 8);
        let a2 = gs2.subrange(0, s2);
        let b2 = gs2.subrange(s2 + r2, 8);
        let ja1 = joined_groups(a1);
        let jb1 = joined_groups(b1);
        let ja2 = joined_groups(a2);
        let jb2 = joined_groups(b2);
        lemma_joined_shape(a1);
        lemma_joined_shape(a2);
        lemma_joined_shape(b1);
        lemma_joined_shape(b2);
        assert(t == ja1 + seq![':', ':'] + jb1);
        let p1 = ja1.len() as int;
        let p2 = ja2.len() as int;
        assert(t[p1] == ':' && t[p1 + 1] == ':');
        assert(t[p2] == ':' && t[p2 + 1] == ':');
        if p1 < p2 {
            if p1 + 1 < p2 {
                assert(t[p1] == ja2[p1]);
                assert(t[p1 + 1] == ja2[p1 + 1]);
                assert(false);
            } else {
                assert(p1 == p2 - 1);
                assert(t[p1] == ja2[p1]);
                assert(a2.len() > 0);
                assert(is_hex_digit(ja2[ja2.len() - 1]));
                assert(false);
            }
        }
        if p2 < p1 {
            if p2 + 1 < p1 {
                assert(t[p2] == ja1[p2]);
                assert(t[p2 + 1] == ja1[p2 + 1]);
                assert(false);
            } else {
                assert(p2 == p1 - 1);
                assert(t[p2] == ja1[p2]);
                assert(a1.len() > 0);
                assert(is_hex_digit(ja1[ja1.len() - 1]));
                assert(false);
            }
        }
        assert(p1 == p2);
        assert(ja1 =~= ja2) by {
            assert forall|i: int| 0 <= i < p1 implies ja1[i] == ja2[i] by {
                assert(ja1[i] == t[i]);
                assert(ja2[i] == t[i]);
            }
        }
        assert(jb1.len() == jb2.len());
        assert(jb1 =~= jb2) by {
            assert forall|i: int| 0 <= i < jb1.len() implies jb1[i] == jb2[i] by {
                assert(jb1[i] == t[p1 + 2 + i]);
                assert(jb2[i] == t[p2 + 2 + i]);
            }
        }
        lemma_joined_injective(a1, a2);
        lemma_joined_injective(b1, b2);
        assert(s1 == s2);
        assert(b1.len() == 8 - s1 - r1 && b2.len() == 8 - s2 - r2);
        assert(r1 == r2);
        assert(gs1 =~= gs2) by {
            assert forall|k: int| 0 <= k < 8 implies gs1[k] == gs2[k] by {
                if k < s1 {
                    assert(gs1[k] == a1[k] && gs2[k] == a2[k]);
                } else if k < s1 + r1 {
                    assert(gs1[k] == 0 && gs2[k] == 0);
                } else {
                    assert(gs1[k] == b1[k - s1 - r1] && gs2[k] == b2[k - s2 - r2]);
                }
            }
        }
    } else if r1 >= 2 {
        // the first text is compressed, the second is not: the first carries
        // two adjacent colons, which plain joined text never does
        let ja1 = joined_groups(gs1.subrange(0, s1));
        let p1 = ja1.len() as int;
        assert(t[p1] == ':' && t[p1 + 1] == ':');
        lemma_joined_shape(gs2);
        assert(false);
    } else if r2 >= 2 {
        let ja2 = joined_groups(gs2.subrange(0, s2));
        let p2 = ja2.len() as int;
        assert(t[p2] == ':' && t[p2 + 1] == ':');
        lemma_joined_shape(gs1);
        assert(false);
    } else {
        lemma_joined_injective(gs1, gs2);
    }
}

} // verus!
