//! Report rendering: one line per probability bucket, each formatted
//! as the bucket index, the yes count and the no count, separated by
//! tabs and ended by a newline.

use vstd::prelude::*;

verus! {

/// The character of a decimal digit.
pub open spec fn dec_digit(d: nat) -> Seq<char> {
    if d == 0 {
        "0"@
    } else if d == 1 {
        "1"@
    } else if d == 2 {
        "2"@
    } else if d == 3 {
        "3"@
    } else if d == 4 {
        "4"@
    } else if d == 5 {
        "5"@
    } else if d == 6 {
        "6"@
    } else if d == 7 {
        "7"@
    } else if d == 8 {
        "8"@
    } else {
        "9"@
    }
}

/// The decimal representation of a number, most significant digit
/// first, without leading zeroes.
pub open spec fn dec_rep(n: nat) -> Seq<char>
    decreases n,
{
    if n < 10 {
        dec_digit(n)
    } else {
        dec_rep(n / 10) + dec_digit(n % 10)
    }
}

/// One report line: index, yes count, no count.
pub open spec fn line_view(idx: nat, cell: (u64, u64)) -> Seq<char> {
    dec_rep(idx) + "\t"@ + dec_rep(cell.0 as nat) + "\t"@ + dec_rep(cell.1 as nat) + "\n"@
}

/// The report lines of a histogram, starting at the given index.
pub open spec fn render_from(h: Seq<(u64, u64)>, idx: nat) -> Seq<char>
    decreases h.len(),
{
    if h.len() == 0 {
        Seq::empty()
    } else {
        line_view(idx, h[0]) + render_from(h.drop_first(), idx + 1)
    }
}

/// The whole report of a histogram: one line per cell, indexed from 0.
pub open spec fn render_view(h: Seq<(u64, u64)>) -> Seq<char> {
    render_from(h, 0)
}

fn digit_str(d: u64) -> (s: &'static str)
    requires
        d < 10,
    ensures
        s@ == dec_digit(d as nat),
{
    if d == 0 {
        "0"
    } else if d == 1 {
        "1"
    } else if d == 2 {
        "2"
    } else if d == 3 {
        "3"
    } else if d == 4 {
        "4"
    } else if d == 5 {
        "5"
    } else if d == 6 {
        "6"
    } else if d == 7 {
        "7"
    } else if d == 8 {
        "8"
    } else {
        "9"
    }
}

/// The decimal representation of a number.
pub fn u64_string(n: u64) -> (s: String)
    ensures
        s@ == dec_rep(n as nat),
    decreases n,
{
    if n < 10 {
        digit_str(n).to_owned()
    } else {
        let mut s = u64_string(n / 10);
        s.append(digit_str(n % 10));
        s
    }
}

proof fn lemma_render_push(h: Seq<(u64, u64)>, idx: nat, cell: (u64, u64))
    ensures
        render_from(h.push(cell), idx) == render_from(h, idx) + line_view(idx + h.len(), cell),
    decreases h.len(),
{
    if h.len() == 0 {
        assert(h.push(cell)[0] == cell);
        assert(h.push(cell).drop_first() =~= Seq::<(u64, u64)>::empty());
        assert(render_from(h.push(cell), idx) == line_view(idx, cell) + render_from(
            Seq::<(u64, u64)>::empty(),
            idx + 1,
        ));
        assert(render_from(Seq::<(u64, u64)>::empty(), idx + 1) =~= Seq::<char>::empty());
        assert(render_from(h, idx) =~= Seq::<char>::empty());
        assert(render_from(h.push(cell), idx) =~= render_from(h, idx) + line_view(
            idx + h.len(),
            cell,
        ));
    } else {
        assert(h.push(cell)[0] == h[0]);
        assert(h.push(cell).drop_first() =~= h.drop_first().push(cell));
        lemma_render_push(h.drop_first(), idx + 1, cell);
        assert(render_from(h.push(cell), idx) =~= render_from(h, idx) + line_view(
            idx + h.len(),
            cell,
        ));
    }
}

/// Renders a histogram to the literal output format: for each cell,
/// in index order, the line `<index>\t<yes>\t<no>\n`.
pub fn render_report(h: &Vec<(u64, u64)>) -> (s: String)
    requires
        h@.len() <= u64::MAX,
    ensures
        s@ == render_view(h@),
{
    let mut out = String::new();
    let n = h.len();
    let mut i: usize = 0;
    proof {
        assert(h@.subrange(0, 0) =~= Seq::<(u64, u64)>::empty());
    }
    while i < n
        invariant
            n == h@.len(),
            n <= u64::MAX,
            0 <= i <= n,
            out@ == render_from(h@.subrange(0, i as int), 0),
        decreases n - i,
    {
        let cell = h[i];
        let idx_s = u64_string(i as u64);
        let yes_s = u64_string(cell.0);
        let no_s = u64_string(cell.1);
        out.append(idx_s.as_str());
        out.append("\t");
        out.append(yes_s.as_str());
        out.append("\t");
        out.append(no_s.as_str());
        out.append("\n");
        proof {
            assert(h@.subrange(0, i + 1) =~= h@.subrange(0, i as int).push(cell));
            lemma_render_push(h@.subrange(0, i as int), 0, cell);
            assert(out@ =~= render_from(h@.subrange(0, i as int), 0) + line_view(i as nat, cell));
        }
        i = i + 1;
    }
    proof {
        assert(h@.subrange(0, n as int) =~= h@);
    }
    out
}

} // verus!
