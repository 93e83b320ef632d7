//! What holds of every copybook, layout and text: joined pictures add their
//! lengths; comment lines and condition names add nothing, and a binary
//! usage is refused by name; laying out stops at the first item of another
//! level, and an occurrence moves as a whole, so every field lies within its
//! record and none is a `FILLER`; records cover the text whatever its line
//! breaks; and a text is valid exactly when every record conforms, each issue
//! naming the record and field it is about.
use vstd::prelude::*;

use crate::conformance::{
    conformance, departure, field_issues, record_issues, record_path, records, records_issues,
    slices, trim_end_signs, trim_start_signs,
};
use crate::contract::SpecIssue;
use crate::copybook::{
    clause_step, close_paren, in_picture, is_binary_usage, is_stop, is_ignored_word, is_level, is_numeric_symbol,
    lay_out, lay_out_occurrence, lay_out_occurrences, layout_of, lemma_close_paren, literal_end,
    measure_from, occurrence_name, origin_of, qualified, quote_close, read_clauses, read_item,
    read_items, sequence_stripped, sign_separate, skip_back, source_of, storage_of, word_ending,
    word_start, Refusal, SpecField,
    SpecItem, SpecLayout,
};
use crate::text::{
    all_digits, debug_text, decimal, digits_value, is_space, lemma_digits_value_grows, lemma_pieces_nonempty, lines, non_empty, parse_unsigned, pieces, separates, strip_cr,
    trim, trim_start, upper, upper_all, words, Separator,
};

verus! {

/// `b` is `a` with every origin moved by `d`.
pub open spec fn shifted(a: Seq<(Seq<char>, nat)>, b: Seq<(Seq<char>, nat)>, d: int) -> bool {
    &&& a.len() == b.len()
    &&& forall|k: int| #![trigger b[k]] 0 <= k < a.len() ==> b[k].0 == a[k].0 && b[k].1 == a[k].1 + d
}

/// Every field of `fields` starts at `lo` or after and ends at `hi` or before.
pub open spec fn within(fields: Seq<SpecField>, lo: int, hi: int) -> bool {
    forall|i: int|
        0 <= i < fields.len() ==> lo <= (#[trigger] fields[i]).offset && fields[i].offset
            + fields[i].length <= hi
}

proof fn lemma_origin_shift(a: Seq<(Seq<char>, nat)>, b: Seq<(Seq<char>, nat)>, d: int, t: Seq<char>)
    requires
        shifted(a, b, d),
    ensures
        origin_of(a, t) is None <==> origin_of(b, t) is None,
        origin_of(a, t) is Some ==> origin_of(b, t)->Some_0 == origin_of(a, t)->Some_0 + d,
    decreases a.len(),
{
    if a.len() > 0 {
        assert(b[0].0 == a[0].0 && b[0].1 == a[0].1 + d);
        let a2 = a.drop_first();
        let b2 = b.drop_first();
        assert forall|k: int| #![trigger b2[k]] 0 <= k < a2.len() implies b2[k].0 == a2[k].0 && b2[k].1
            == a2[k].1 + d by {
            assert(b[k + 1].0 == a[k + 1].0 && b[k + 1].1 == a[k + 1].1 + d);
        }
        lemma_origin_shift(a2, b2, d, t);
    }
}

proof fn lemma_origin_at_least(a: Seq<(Seq<char>, nat)>, t: Seq<char>, lo: int)
    requires
        forall|k: int| 0 <= k < a.len() ==> (#[trigger] a[k]).1 >= lo,
    ensures
        origin_of(a, t) is Some ==> origin_of(a, t)->Some_0 >= lo,
    decreases a.len(),
{
    if a.len() > 0 {
        assert(a[0].1 >= lo);
        let a2 = a.drop_first();
        assert forall|k: int| 0 <= k < a2.len() implies (#[trigger] a2[k]).1 >= lo by {
            assert(a[k + 1].1 >= lo);
        }
        lemma_origin_at_least(a2, t, lo);
    }
}

/// `b` lists the fields of `a`, in order, each moved by `d`, as long and of
/// the same kind; only the names may differ.
pub open spec fn moved(a: Seq<SpecField>, b: Seq<SpecField>, d: int) -> bool {
    &&& a.len() == b.len()
    &&& forall|i: int|
        #![trigger b[i]]
        0 <= i < a.len() ==> {
            &&& b[i].offset == a[i].offset + d
            &&& b[i].length == a[i].length
            &&& b[i].numeric == a[i].numeric
            &&& b[i].signed == a[i].signed
        }
}

proof fn lemma_moved_joined(
    a1: Seq<SpecField>,
    a2: Seq<SpecField>,
    b1: Seq<SpecField>,
    b2: Seq<SpecField>,
    d: int,
)
    requires
        moved(a1, a2, d),
        moved(b1, b2, d),
    ensures
        moved(a1 + b1, a2 + b2, d),
{
    let x = a1 + b1;
    let y = a2 + b2;
    assert forall|i: int| #![trigger y[i]] 0 <= i < x.len() implies {
        &&& y[i].offset == x[i].offset + d
        &&& y[i].length == x[i].length
        &&& y[i].numeric == x[i].numeric
        &&& y[i].signed == x[i].signed
    } by {
        if i < a1.len() {
            assert(x[i] == a1[i] && y[i] == a2[i]);
        } else {
            assert(x[i] == b1[i - a1.len()] && y[i] == b2[i - a1.len()]);
        }
    }
}

/// Laying out the same items at two offsets, with what they may redefine
/// moved alike, ends as far apart, consumes the same items and gives the
/// same fields moved alike.
proof fn lemma_lay_out_shift(
    items: Seq<SpecItem>,
    index: int,
    level: nat,
    o1: nat,
    o2: nat,
    p1: Seq<char>,
    p2: Seq<char>,
    pl1: Seq<(Seq<char>, nat)>,
    pl2: Seq<(Seq<char>, nat)>,
)
    requires
        shifted(pl1, pl2, o2 - o1),
        lay_out(items, index, level, o1, p1, pl1) is Ok,
        lay_out(items, index, level, o2, p2, pl2) is Ok,
    ensures
        ({
            let r1 = lay_out(items, index, level, o1, p1, pl1)->Ok_0;
            let r2 = lay_out(items, index, level, o2, p2, pl2)->Ok_0;
            &&& r2.0 == r1.0 + (o2 - o1)
            &&& r2.1 == r1.1
            &&& moved(r1.2, r2.2, o2 - o1)
        }),
    decreases (items.len() - index) as nat, 2nat, 0nat,
{
    let d = o2 - o1;
    if 0 <= index < items.len() && items[index].level == level {
        let item = items[index];
        let origin1 = match item.redefines {
            Some(target) => origin_of(pl1, target),
            None => Some(o1),
        };
        let origin2 = match item.redefines {
            Some(target) => origin_of(pl2, target),
            None => Some(o2),
        };
        match item.redefines {
            Some(target) => {
                lemma_origin_shift(pl1, pl2, d, target);
            },
            None => {},
        }
        let g1 = origin1->Some_0;
        let g2 = origin2->Some_0;
        assert(g2 == g1 + d);
        let n1 = qualified(p1, item.name);
        let n2 = qualified(p2, item.name);
        let occ1 = lay_out_occurrences(items, index, level, p1, n1, g1, 1, 0, index + 1);
        let occ2 = lay_out_occurrences(items, index, level, p2, n2, g2, 1, 0, index + 1);
        lemma_occurrences_shift(items, index, level, p1, p2, n1, n2, g1, g2, 1, 0, index + 1);
        let (one, next, f1) = occ1->Ok_0;
        let f2 = occ2->Ok_0.2;
        let length = one * item.occurs;
        let end1 = g1 + length;
        let end2 = g2 + length;
        let after1: nat = if item.redefines is None || o1 < end1 {
            end1
        } else {
            o1
        };
        let after2: nat = if item.redefines is None || o2 < end2 {
            end2
        } else {
            o2
        };
        assert(after2 == after1 + d);
        if index < next <= items.len() {
            let q1 = pl1.push((item.name, g1));
            let q2 = pl2.push((item.name, g2));
            assert forall|k: int| #![trigger q2[k]] 0 <= k < q1.len() implies q2[k].0 == q1[k].0
                && q2[k].1 == q1[k].1 + d by {
                if k < pl1.len() {
                    assert(q2[k] == pl2[k] && q1[k] == pl1[k]);
                    assert(pl2[k].0 == pl1[k].0 && pl2[k].1 == pl1[k].1 + d);
                }
            }
            lemma_lay_out_shift(items, next, level, after1, after2, p1, p2, q1, q2);
            lemma_moved_joined(
                f1,
                f2,
                lay_out(items, next, level, after1, p1, q1)->Ok_0.2,
                lay_out(items, next, level, after2, p2, q2)->Ok_0.2,
                d,
            );
        }
    } else {
        assert(moved(Seq::<SpecField>::empty(), Seq::<SpecField>::empty(), d));
    }
}

/// The occurrences of one item, laid out from two origins, end with the same
/// length, consume the same items and give the same fields, moved alike.
proof fn lemma_occurrences_shift(
    items: Seq<SpecItem>,
    index: int,
    level: nat,
    p1: Seq<char>,
    p2: Seq<char>,
    n1: Seq<char>,
    n2: Seq<char>,
    g1: nat,
    g2: nat,
    k: nat,
    one: nat,
    next: int,
)
    requires
        lay_out_occurrences(items, index, level, p1, n1, g1, k, one, next) is Ok,
        lay_out_occurrences(items, index, level, p2, n2, g2, k, one, next) is Ok,
    ensures
        ({
            let r1 = lay_out_occurrences(items, index, level, p1, n1, g1, k, one, next)->Ok_0;
            let r2 = lay_out_occurrences(items, index, level, p2, n2, g2, k, one, next)->Ok_0;
            &&& r1.0 == r2.0
            &&& r1.1 == r2.1
            &&& moved(r1.2, r2.2, g2 - g1)
        }),
    decreases (items.len() - index) as nat, 1nat, (items[index].occurs + 1 - k) as nat,
{
    let item = items[index];
    if k <= item.occurs {
        let step: nat = one * ((k - 1) as nat);
        let at1: nat = g1 + step;
        let at2: nat = g2 + step;
        let o1 = occurrence_name(n1, item.occurs, k);
        let o2 = occurrence_name(n2, item.occurs, k);
        lemma_occurrence_shift(items, index, level, p1, p2, o1, o2, at1, at2);
        let h1 = lay_out_occurrence(items, index, level, p1, o1, at1)->Ok_0;
        let h2 = lay_out_occurrence(items, index, level, p2, o2, at2)->Ok_0;
        assert((h1.0 - at1) as nat == (h2.0 - at2) as nat);
        lemma_occurrences_shift(
            items,
            index,
            level,
            p1,
            p2,
            n1,
            n2,
            g1,
            g2,
            k + 1,
            (h1.0 - at1) as nat,
            h1.1,
        );
        lemma_moved_joined(
            h1.2,
            h2.2,
            lay_out_occurrences(items, index, level, p1, n1, g1, k + 1, (h1.0 - at1) as nat, h1.1)->Ok_0.2,
            lay_out_occurrences(items, index, level, p2, n2, g2, k + 1, (h1.0 - at1) as nat, h1.1)->Ok_0.2,
            g2 - g1,
        );
    } else {
        assert(moved(Seq::<SpecField>::empty(), Seq::<SpecField>::empty(), g2 - g1));
    }
}

/// An occurrence's layout moves as a whole: laid out at two places, it is as
/// long at both, consumes the same items, and gives the same fields, each as
/// long, of the same kind, and moved by the distance between the places.
pub proof fn lemma_occurrence_shift(
    items: Seq<SpecItem>,
    index: int,
    level: nat,
    p1: Seq<char>,
    p2: Seq<char>,
    o1: Seq<char>,
    o2: Seq<char>,
    at1: nat,
    at2: nat,
)
    requires
        lay_out_occurrence(items, index, level, p1, o1, at1) is Ok,
        lay_out_occurrence(items, index, level, p2, o2, at2) is Ok,
    ensures
        ({
            let r1 = lay_out_occurrence(items, index, level, p1, o1, at1)->Ok_0;
            let r2 = lay_out_occurrence(items, index, level, p2, o2, at2)->Ok_0;
            &&& r1.0 - at1 == r2.0 - at2
            &&& r1.1 == r2.1
            &&& moved(r1.2, r2.2, at2 - at1)
        }),
    decreases (items.len() - index) as nat, 0nat, 0nat,
{
    let item = items[index];
    if item.picture is None && index + 1 < items.len() && items[index + 1].level > level {
        let c1 = if p1.len() == 0 && item.level == items[0].level {
            Seq::<char>::empty()
        } else {
            o1
        };
        let c2 = if p2.len() == 0 && item.level == items[0].level {
            Seq::<char>::empty()
        } else {
            o2
        };
        let none: Seq<(Seq<char>, nat)> = seq![];
        lemma_lay_out_shift(
            items,
            index + 1,
            items[index + 1].level,
            at1,
            at2,
            c1,
            c2,
            none,
            none,
        );
    } else {
        let r1 = lay_out_occurrence(items, index, level, p1, o1, at1)->Ok_0;
        let r2 = lay_out_occurrence(items, index, level, p2, o2, at2)->Ok_0;
        assert(moved(r1.2, r2.2, at2 - at1));
    }
}

/// Laying out items never ends before it starts: each item goes on from
/// where the last ended, and a redefinition, laid from its target's origin,
/// never pulls the offset back.
pub proof fn lemma_lay_out_grows(
    items: Seq<SpecItem>,
    index: int,
    level: nat,
    offset: nat,
    prefix: Seq<char>,
    placed: Seq<(Seq<char>, nat)>,
)
    requires
        lay_out(items, index, level, offset, prefix, placed) is Ok,
    ensures
        lay_out(items, index, level, offset, prefix, placed)->Ok_0.0 >= offset,
    decreases items.len() - index,
{
    if 0 <= index < items.len() && items[index].level == level {
        let item = items[index];
        let origin = match item.redefines {
            Some(target) => origin_of(placed, target),
            None => Some(offset),
        };
        let g = origin->Some_0;
        let name = qualified(prefix, item.name);
        let occ = lay_out_occurrences(items, index, level, prefix, name, g, 1, 0, index + 1);
        let (one, next, fields) = occ->Ok_0;
        let end = g + one * item.occurs;
        let after: nat = if item.redefines is None || offset < end {
            end
        } else {
            offset
        };
        if index < next <= items.len() {
            lemma_lay_out_grows(items, next, level, after, prefix, placed.push((item.name, g)));
        }
    }
}

/// An occurrence never ends before it starts.
proof fn lemma_occurrence_grows(
    items: Seq<SpecItem>,
    index: int,
    level: nat,
    prefix: Seq<char>,
    oname: Seq<char>,
    at: nat,
)
    requires
        lay_out_occurrence(items, index, level, prefix, oname, at) is Ok,
    ensures
        lay_out_occurrence(items, index, level, prefix, oname, at)->Ok_0.0 >= at,
{
    let item = items[index];
    if item.picture is None && index + 1 < items.len() && items[index + 1].level > level {
        let c = if prefix.len() == 0 && item.level == items[0].level {
            Seq::<char>::empty()
        } else {
            oname
        };
        lemma_lay_out_grows(items, index + 1, items[index + 1].level, at, c, seq![]);
    }
}

/// The length the occurrences from `k` on end with is the extent of
/// occurrence `k`.
proof fn lemma_occurrences_extent(
    items: Seq<SpecItem>,
    index: int,
    level: nat,
    prefix: Seq<char>,
    name: Seq<char>,
    origin: nat,
    k: nat,
    one: nat,
    next: int,
)
    requires
        lay_out_occurrences(items, index, level, prefix, name, origin, k, one, next) is Ok,
        1 <= k <= items[index].occurs,
    ensures
        ({
            let at: nat = origin + one * ((k - 1) as nat);
            let here = lay_out_occurrence(
                items,
                index,
                level,
                prefix,
                occurrence_name(name, items[index].occurs, k),
                at,
            );
            &&& here is Ok
            &&& lay_out_occurrences(items, index, level, prefix, name, origin, k, one, next)->Ok_0.0
                == here->Ok_0.0 - at
        }),
    decreases items[index].occurs + 1 - k,
{
    let item = items[index];
    let at: nat = origin + one * ((k - 1) as nat);
    let here = lay_out_occurrence(
        items,
        index,
        level,
        prefix,
        occurrence_name(name, item.occurs, k),
        at,
    );
    let x: nat = (here->Ok_0.0 - at) as nat;
    let after = here->Ok_0.1;
    let rest = lay_out_occurrences(items, index, level, prefix, name, origin, k + 1, x, after);
    assert(lay_out_occurrences(items, index, level, prefix, name, origin, k, one, next)->Ok_0.0
        == rest->Ok_0.0);
    lemma_occurrence_grows(items, index, level, prefix, occurrence_name(name, item.occurs, k), at);
    if k + 1 > item.occurs {
        assert(rest->Ok_0.0 == x);
    }
    if k + 1 <= item.occurs {
        lemma_occurrences_extent(items, index, level, prefix, name, origin, k + 1, x, after);
        let at2: nat = origin + x * k;
        assert(at2 == origin + x * (((k + 1) - 1) as nat));
        lemma_occurrence_shift(
            items,
            index,
            level,
            prefix,
            prefix,
            occurrence_name(name, item.occurs, k),
            occurrence_name(name, item.occurs, k + 1),
            at,
            at2,
        );
        let here2 = lay_out_occurrence(
            items,
            index,
            level,
            prefix,
            occurrence_name(name, item.occurs, k + 1),
            at2,
        );
        assert(here is Ok);
        assert(here2 is Ok);
        assert(rest->Ok_0.0 == here2->Ok_0.0 - at2);
        assert(here->Ok_0.0 - at == here2->Ok_0.0 - at2);
    }
}

/// Laying out items ends no earlier than it starts, and the fields it gives
/// lie between the lowest origin they could take (where it starts, or where
/// an item they may redefine started) and where it ends.
pub proof fn lemma_lay_out_bounds(
    items: Seq<SpecItem>,
    index: int,
    level: nat,
    offset: nat,
    prefix: Seq<char>,
    placed: Seq<(Seq<char>, nat)>,
    lo: nat,
)
    requires
        lay_out(items, index, level, offset, prefix, placed) is Ok,
        offset >= lo,
        forall|k: int| 0 <= k < placed.len() ==> (#[trigger] placed[k]).1 >= lo,
    ensures
        lay_out(items, index, level, offset, prefix, placed)->Ok_0.0 >= offset,
        within(
            lay_out(items, index, level, offset, prefix, placed)->Ok_0.2,
            lo as int,
            lay_out(items, index, level, offset, prefix, placed)->Ok_0.0 as int,
        ),
    decreases (items.len() - index) as nat, 2nat, 0nat,
{
    if 0 <= index < items.len() && items[index].level == level {
        let item = items[index];
        let origin = match item.redefines {
            Some(target) => origin_of(placed, target),
            None => Some(offset),
        };
        match item.redefines {
            Some(target) => {
                lemma_origin_at_least(placed, target, lo as int);
            },
            None => {},
        }
        let g = origin->Some_0;
        let name = qualified(prefix, item.name);
        let occ = lay_out_occurrences(items, index, level, prefix, name, g, 1, 0, index + 1);
        lemma_occurrences_bounds(items, index, level, prefix, name, g, 1, 0, index + 1);
        let (one, next, fields) = occ->Ok_0;
        let length = one * item.occurs;
        let end = g + length;
        assert(one * (1 - 1) == 0) by (nonlinear_arith);
        let after: nat = if item.redefines is None || offset < end {
            end
        } else {
            offset
        };
        if index < next <= items.len() {
            let q = placed.push((item.name, g));
            assert forall|k: int| 0 <= k < q.len() implies (#[trigger] q[k]).1 >= lo by {
                if k < placed.len() {
                    assert(placed[k].1 >= lo);
                }
            }
            lemma_lay_out_bounds(items, next, level, after, prefix, q, lo);
            let rest = lay_out(items, next, level, after, prefix, q)->Ok_0;
            let all = fields + rest.2;
            assert forall|i: int| 0 <= i < all.len() implies lo <= (#[trigger] all[i]).offset
                && all[i].offset + all[i].length <= rest.0 by {
                if i < fields.len() {
                    assert(all[i] == fields[i]);
                } else {
                    assert(all[i] == rest.2[i - fields.len()]);
                }
            }
        }
    }
}

/// The occurrences from `k` on, each as long as the last, lie between where
/// occurrence `k` starts and where the last one ends.
proof fn lemma_occurrences_bounds(
    items: Seq<SpecItem>,
    index: int,
    level: nat,
    prefix: Seq<char>,
    name: Seq<char>,
    origin: nat,
    k: nat,
    one: nat,
    next: int,
)
    requires
        lay_out_occurrences(items, index, level, prefix, name, origin, k, one, next) is Ok,
        k >= 1,
        k > 1 ==> one == lay_out_occurrences(
            items,
            index,
            level,
            prefix,
            name,
            origin,
            k,
            one,
            next,
        )->Ok_0.0,
    ensures
        ({
            let r = lay_out_occurrences(items, index, level, prefix, name, origin, k, one, next)->Ok_0;
            within(r.2, origin + r.0 * (k - 1), (origin + r.0 * items[index].occurs) as int)
        }),
    decreases (items.len() - index) as nat, 1nat, (items[index].occurs + 1 - k) as nat,
{
    let item = items[index];
    let r = lay_out_occurrences(items, index, level, prefix, name, origin, k, one, next)->Ok_0;
    let c = r.0;
    if k <= item.occurs {
        let at: nat = origin + one * ((k - 1) as nat);
        let oname = occurrence_name(name, item.occurs, k);
        let here = lay_out_occurrence(items, index, level, prefix, oname, at);
        lemma_occurrences_extent(items, index, level, prefix, name, origin, k, one, next);
        lemma_occurrence_bounds(items, index, level, prefix, oname, at);
        let (end, after, fields) = here->Ok_0;
        let x: nat = (end - at) as nat;
        assert(x == c);
        assert(at == origin + c * (k - 1)) by (nonlinear_arith)
            requires
                at == origin + one * ((k - 1) as nat),
                k >= 1,
                k > 1 ==> one == c,
        ;
        lemma_occurrences_bounds(items, index, level, prefix, name, origin, k + 1, x, after);
        let rest = lay_out_occurrences(
            items,
            index,
            level,
            prefix,
            name,
            origin,
            k + 1,
            x,
            after,
        )->Ok_0;
        assert(rest.0 == c);
        assert(c * (k - 1) + c == c * k && c * k <= c * item.occurs) by (nonlinear_arith)
            requires
                k <= item.occurs,
                k >= 1,
        ;
        let all = fields + rest.2;
        assert forall|i: int| 0 <= i < all.len() implies origin + c * (k - 1) <= (
        #[trigger] all[i]).offset && all[i].offset + all[i].length <= origin + c
            * item.occurs by {
            if i < fields.len() {
                assert(all[i] == fields[i]);
            } else {
                assert(all[i] == rest.2[i - fields.len()]);
            }
        }
    }
}

/// One occurrence's fields lie between where it starts and where it ends.
proof fn lemma_occurrence_bounds(
    items: Seq<SpecItem>,
    index: int,
    level: nat,
    prefix: Seq<char>,
    oname: Seq<char>,
    at: nat,
)
    requires
        lay_out_occurrence(items, index, level, prefix, oname, at) is Ok,
    ensures
        lay_out_occurrence(items, index, level, prefix, oname, at)->Ok_0.0 >= at,
        within(
            lay_out_occurrence(items, index, level, prefix, oname, at)->Ok_0.2,
            at as int,
            lay_out_occurrence(items, index, level, prefix, oname, at)->Ok_0.0 as int,
        ),
    decreases (items.len() - index) as nat, 0nat, 0nat,
{
    let item = items[index];
    if item.picture is None && index + 1 < items.len() && items[index + 1].level > level {
        let c = if prefix.len() == 0 && item.level == items[0].level {
            Seq::<char>::empty()
        } else {
            oname
        };
        let none: Seq<(Seq<char>, nat)> = seq![];
        lemma_lay_out_bounds(items, index + 1, items[index + 1].level, at, c, none, at);
    }
}

/// Every field of a layout lies within its record: it starts at or after
/// the record's start and ends at or before the record's end.
pub proof fn lemma_fields_within_record(text: Seq<char>)
    requires
        layout_of(text) is Ok,
    ensures
        within(layout_of(text)->Ok_0.fields, 0, layout_of(text)->Ok_0.record_length as int),
{
    let items = crate::copybook::items_of(text)->Ok_0;
    let none: Seq<(Seq<char>, nat)> = seq![];
    lemma_lay_out_bounds(items, 0, items[0].level, 0, Seq::<char>::empty(), none, 0);
}

/// No field of `fields` is named `FILLER`.
pub open spec fn no_filler(fields: Seq<SpecField>) -> bool {
    forall|i: int| 0 <= i < fields.len() ==> (#[trigger] fields[i]).name != "FILLER"@
}

proof fn lemma_no_filler_joined(a: Seq<SpecField>, b: Seq<SpecField>)
    requires
        no_filler(a),
        no_filler(b),
    ensures
        no_filler(a + b),
{
    let all = a + b;
    assert forall|i: int| 0 <= i < all.len() implies (#[trigger] all[i]).name != "FILLER"@ by {
        if i < a.len() {
            assert(all[i] == a[i]);
        } else {
            assert(all[i] == b[i - a.len()]);
        }
    }
}

/// An occurrence takes the name `FILLER` only when its item is a `FILLER`:
/// a group's name comes before a full stop, and a repeat ends in `)`.
proof fn lemma_filler_name(p: Seq<char>, n: Seq<char>, o: nat, k: nat)
    ensures
        occurrence_name(qualified(p, n), o, k) == "FILLER"@ ==> n == "FILLER"@,
{
    reveal_strlit("FILLER");
    let q = qualified(p, n);
    if o > 1 {
        let s = q + seq!['('] + decimal(k) + seq![')'];
        assert(s[s.len() - 1] == ')');
        assert("FILLER"@[5] == 'R');
    } else if p.len() > 0 {
        let s = p + seq!['.'] + n;
        assert(s[p.len() as int] == '.');
        assert(s.len() == p.len() + 1 + n.len());
        if s == "FILLER"@ {
            assert(s.len() == 6);
            assert(forall|i: int| 0 <= i < 6 ==> "FILLER"@[i] != '.');
        }
    }
}

proof fn lemma_lay_out_no_filler(
    items: Seq<SpecItem>,
    index: int,
    level: nat,
    offset: nat,
    prefix: Seq<char>,
    placed: Seq<(Seq<char>, nat)>,
)
    requires
        lay_out(items, index, level, offset, prefix, placed) is Ok,
    ensures
        no_filler(lay_out(items, index, level, offset, prefix, placed)->Ok_0.2),
    decreases (items.len() - index) as nat, 2nat, 0nat,
{
    if 0 <= index < items.len() && items[index].level == level {
        let item = items[index];
        let origin = match item.redefines {
            Some(target) => origin_of(placed, target),
            None => Some(offset),
        };
        let g = origin->Some_0;
        let name = qualified(prefix, item.name);
        lemma_occurrences_no_filler(items, index, level, prefix, name, g, 1, 0, index + 1);
        let (one, next, fields) = lay_out_occurrences(
            items,
            index,
            level,
            prefix,
            name,
            g,
            1,
            0,
            index + 1,
        )->Ok_0;
        let end = g + one * item.occurs;
        let after: nat = if item.redefines is None || offset < end {
            end
        } else {
            offset
        };
        if index < next <= items.len() {
            let q = placed.push((item.name, g));
            lemma_lay_out_no_filler(items, next, level, after, prefix, q);
            lemma_no_filler_joined(fields, lay_out(items, next, level, after, prefix, q)->Ok_0.2);
        }
    }
}

proof fn lemma_occurrences_no_filler(
    items: Seq<SpecItem>,
    index: int,
    level: nat,
    prefix: Seq<char>,
    name: Seq<char>,
    origin: nat,
    k: nat,
    one: nat,
    next: int,
)
    requires
        lay_out_occurrences(items, index, level, prefix, name, origin, k, one, next) is Ok,
        name == qualified(prefix, items[index].name),
    ensures
        no_filler(
            lay_out_occurrences(items, index, level, prefix, name, origin, k, one, next)->Ok_0.2,
        ),
    decreases (items.len() - index) as nat, 1nat, (items[index].occurs + 1 - k) as nat,
{
    let item = items[index];
    if k <= item.occurs {
        let at: nat = origin + one * ((k - 1) as nat);
        let oname = occurrence_name(name, item.occurs, k);
        lemma_filler_name(prefix, item.name, item.occurs, k);
        lemma_occurrence_no_filler(items, index, level, prefix, oname, at);
        let (end, after, fields) = lay_out_occurrence(items, index, level, prefix, oname, at)->Ok_0;
        let x: nat = (end - at) as nat;
        lemma_occurrences_no_filler(items, index, level, prefix, name, origin, k + 1, x, after);
        lemma_no_filler_joined(
            fields,
            lay_out_occurrences(items, index, level, prefix, name, origin, k + 1, x, after)->Ok_0.2,
        );
    }
}

proof fn lemma_occurrence_no_filler(
    items: Seq<SpecItem>,
    index: int,
    level: nat,
    prefix: Seq<char>,
    oname: Seq<char>,
    at: nat,
)
    requires
        lay_out_occurrence(items, index, level, prefix, oname, at) is Ok,
        oname == "FILLER"@ ==> items[index].name == "FILLER"@,
    ensures
        no_filler(lay_out_occurrence(items, index, level, prefix, oname, at)->Ok_0.2),
    decreases (items.len() - index) as nat, 0nat, 0nat,
{
    let item = items[index];
    if item.picture is None && index + 1 < items.len() && items[index + 1].level > level {
        let c = if prefix.len() == 0 && item.level == items[0].level {
            Seq::<char>::empty()
        } else {
            oname
        };
        let none: Seq<(Seq<char>, nat)> = seq![];
        lemma_lay_out_no_filler(items, index + 1, items[index + 1].level, at, c, none);
    }
}

/// Laying out items at a level consumes them up to the first item at another
/// level, or the end: it stops past the item it starts at when that one
/// stands at the level, and never runs past the items.
pub proof fn lemma_lay_out_next(
    items: Seq<SpecItem>,
    index: int,
    level: nat,
    offset: nat,
    prefix: Seq<char>,
    placed: Seq<(Seq<char>, nat)>,
)
    requires
        0 <= index <= items.len(),
        lay_out(items, index, level, offset, prefix, placed) is Ok,
    ensures
        ({
            let next = lay_out(items, index, level, offset, prefix, placed)->Ok_0.1;
            &&& index <= next <= items.len()
            &&& (next == items.len() || items[next].level != level)
            &&& (index < items.len() && items[index].level == level) ==> next > index
        }),
    decreases (items.len() - index) as nat, 2nat, 0nat,
{
    if index < items.len() && items[index].level == level {
        let item = items[index];
        let origin = match item.redefines {
            Some(target) => origin_of(placed, target),
            None => Some(offset),
        };
        let g = origin->Some_0;
        let name = qualified(prefix, item.name);
        lemma_occurrences_next(items, index, level, prefix, name, g, 1, 0, index + 1);
        let (one, next, fields) = lay_out_occurrences(
            items,
            index,
            level,
            prefix,
            name,
            g,
            1,
            0,
            index + 1,
        )->Ok_0;
        let end = g + one * item.occurs;
        let after: nat = if item.redefines is None || offset < end {
            end
        } else {
            offset
        };
        lemma_lay_out_next(items, next, level, after, prefix, placed.push((item.name, g)));
    }
}

proof fn lemma_occurrences_next(
    items: Seq<SpecItem>,
    index: int,
    level: nat,
    prefix: Seq<char>,
    name: Seq<char>,
    origin: nat,
    k: nat,
    one: nat,
    next: int,
)
    requires
        0 <= index < next <= items.len(),
        lay_out_occurrences(items, index, level, prefix, name, origin, k, one, next) is Ok,
    ensures
        index < lay_out_occurrences(items, index, level, prefix, name, origin, k, one, next)->Ok_0.1
            <= items.len(),
    decreases (items.len() - index) as nat, 1nat, (items[index].occurs + 1 - k) as nat,
{
    let item = items[index];
    if k <= item.occurs {
        let at: nat = origin + one * ((k - 1) as nat);
        let oname = occurrence_name(name, item.occurs, k);
        lemma_occurrence_next(items, index, level, prefix, oname, at);
        let (end, after, fields) = lay_out_occurrence(items, index, level, prefix, oname, at)->Ok_0;
        lemma_occurrences_next(
            items,
            index,
            level,
            prefix,
            name,
            origin,
            k + 1,
            (end - at) as nat,
            after,
        );
    }
}

proof fn lemma_occurrence_next(
    items: Seq<SpecItem>,
    index: int,
    level: nat,
    prefix: Seq<char>,
    oname: Seq<char>,
    at: nat,
)
    requires
        0 <= index < items.len(),
        lay_out_occurrence(items, index, level, prefix, oname, at) is Ok,
    ensures
        index < lay_out_occurrence(items, index, level, prefix, oname, at)->Ok_0.1 <= items.len(),
    decreases (items.len() - index) as nat, 0nat, 0nat,
{
    let item = items[index];
    if item.picture is None && index + 1 < items.len() && items[index + 1].level > level {
        let c = if prefix.len() == 0 && item.level == items[0].level {
            Seq::<char>::empty()
        } else {
            oname
        };
        let none: Seq<(Seq<char>, nat)> = seq![];
        lemma_lay_out_next(items, index + 1, items[index + 1].level, at, c, none);
    }
}

/// A `FILLER` takes its room in the record and lists no field: no field of a
/// layout is named `FILLER`.
pub proof fn lemma_filler_lists_no_field(text: Seq<char>)
    requires
        layout_of(text) is Ok,
    ensures
        no_filler(layout_of(text)->Ok_0.fields),
{
    let items = crate::copybook::items_of(text)->Ok_0;
    let none: Seq<(Seq<char>, nat)> = seq![];
    lemma_lay_out_no_filler(items, 0, items[0].level, 0, Seq::<char>::empty(), none);
}

// ---------------------------------------------------------------------------
// Pictures
// ---------------------------------------------------------------------------

/// Measuring a picture from `j` on, with a length and flags already found,
/// adds what the rest of the picture measures on its own: its length, and
/// its flags, combined. It is refused when the rest is, or when the sum does
/// not fit in a `usize`.
pub proof fn lemma_measure_adds(q: Seq<char>, j: nat, l: nat, n: bool, s: bool)
    requires
        l <= usize::MAX,
    ensures
        match measure_from(q, j, 0, true, false) {
            Ok((len, num, sgn)) => if l + len <= usize::MAX {
                measure_from(q, j, l, n, s) == Ok::<(nat, bool, bool), Refusal>(
                    (l + len, n && num, s || sgn),
                )
            } else {
                measure_from(q, j, l, n, s) is Err
            },
            Err(_) => measure_from(q, j, l, n, s) is Err,
        },
    decreases q.len() - j,
{
    if j < q.len() {
        let grouped = j + 1 < q.len() && q[j + 1 as int] == '(';
        let close = close_paren(q, j + 2);
        lemma_close_paren(q, j + 2);
        let next: nat = if grouped {
            if close < q.len() {
                close + 1
            } else {
                q.len()
            }
        } else {
            j + 1
        };
        let repeat = if grouped {
            parse_unsigned(trim(q.subrange(j + 2 as int, close as int)), usize::MAX as nat)
        } else {
            Some(1nat)
        };
        if let Some(r) = repeat {
            let u = upper(q[j as int]);
            let rest = measure_from(q, next, 0, true, false);
            if u == 'X' || u == 'A' {
                assert(measure_from(q, j, 0, true, false) == if r > usize::MAX {
                    Err(Refusal::TooLarge)
                } else {
                    measure_from(q, next, r, false, false)
                });
                assert(measure_from(q, j, l, n, s) == if l + r > usize::MAX {
                    Err(Refusal::TooLarge)
                } else {
                    measure_from(q, next, l + r, false, s)
                });
                if r <= usize::MAX {
                    lemma_measure_adds(q, next, r, false, false);
                }
                if l + r <= usize::MAX {
                    lemma_measure_adds(q, next, l + r, false, s);
                }
            } else if is_numeric_symbol(u) {
                assert(measure_from(q, j, 0, true, false) == if r > usize::MAX {
                    Err(Refusal::TooLarge)
                } else {
                    measure_from(q, next, r, true, false)
                });
                assert(measure_from(q, j, l, n, s) == if l + r > usize::MAX {
                    Err(Refusal::TooLarge)
                } else {
                    measure_from(q, next, l + r, n, s)
                });
                if r <= usize::MAX {
                    lemma_measure_adds(q, next, r, true, false);
                }
                if l + r <= usize::MAX {
                    lemma_measure_adds(q, next, l + r, n, s);
                }
            } else if u == 'S' {
                assert(measure_from(q, j, 0, true, false) == measure_from(q, next, 0, true, true));
                assert(measure_from(q, j, l, n, s) == measure_from(q, next, l, n, true));
                lemma_measure_adds(q, next, 0, true, true);
                lemma_measure_adds(q, next, l, n, true);
            } else if u == 'V' {
                assert(measure_from(q, j, 0, true, false) == measure_from(q, next, 0, true, false));
                assert(measure_from(q, j, l, n, s) == measure_from(q, next, l, n, s));
                lemma_measure_adds(q, next, 0, true, false);
                lemma_measure_adds(q, next, l, n, s);
            }
        }
    }
}

/// Each symbol of the subset, alone, measures as the subset says: `X` and
/// `A` (in either case) take one position and make the picture
/// alphanumeric; `9`, `Z`, `*`, `.`, `,`, `-` and `+` take one position and
/// keep it numeric; `S` takes none and signs it; `V` takes none. Every other
/// character is refused.
pub proof fn lemma_one_symbol(c: char)
    ensures
        (c == 'X' || c == 'x' || c == 'A' || c == 'a') ==> storage_of(seq![c]) == Ok::<
            (nat, bool, bool),
            Refusal,
        >((1, false, false)),
        (c == '9' || c == 'Z' || c == 'z' || c == '*' || c == '.' || c == ',' || c == '-' || c
            == '+') ==> storage_of(seq![c]) == Ok::<(nat, bool, bool), Refusal>((1, true, false)),
        (c == 'S' || c == 's') ==> storage_of(seq![c]) == Ok::<(nat, bool, bool), Refusal>(
            (0, true, true),
        ),
        (c == 'V' || c == 'v') ==> storage_of(seq![c]) == Ok::<(nat, bool, bool), Refusal>(
            (0, true, false),
        ),
        !(c == 'X' || c == 'x' || c == 'A' || c == 'a' || c == '9' || c == 'Z' || c == 'z' || c
            == '*' || c == '.' || c == ',' || c == '-' || c == '+' || c == 'S' || c == 's' || c
            == 'V' || c == 'v') ==> storage_of(seq![c]) is Err,
{
    let p = seq![c];
    lemma_close_paren(p, 2);
    assert(measure_from(p, 1, 1, false, false) == Ok::<(nat, bool, bool), Refusal>((1, false, false)));
    assert(measure_from(p, 1, 1, true, false) == Ok::<(nat, bool, bool), Refusal>((1, true, false)));
    assert(measure_from(p, 1, 0, true, true) == Ok::<(nat, bool, bool), Refusal>((0, true, true)));
    assert(measure_from(p, 1, 0, true, false) == Ok::<(nat, bool, bool), Refusal>((0, true, false)));
    let u = upper(c);
    if 'a' <= c && c <= 'z' {
        assert(u as u32 == c as u32 - 32);
    } else {
        assert(u == c);
    }
}

proof fn lemma_close_paren_after_digits(p: Seq<char>, from: int, to: int)
    requires
        0 <= from <= to < p.len(),
        p[to] == ')',
        forall|k: int| from <= k < to ==> '0' <= #[trigger] p[k] && p[k] <= '9',
    ensures
        close_paren(p, from as nat) == to,
    decreases to - from,
{
    if from < to {
        lemma_close_paren_after_digits(p, from + 1, to);
    }
}

/// A symbol of the subset followed by a repeat `(n)`, written in decimal
/// digits, counts `n` times: `X(10)` takes ten positions, `S(3)` none.
pub proof fn lemma_repeated_symbol(c: char, d: Seq<char>)
    requires
        d.len() > 0,
        forall|k: int| 0 <= k < d.len() ==> '0' <= #[trigger] d[k] && d[k] <= '9',
        digits_value(d) <= usize::MAX,
    ensures
        ({
            let p = seq![c, '('] + d + seq![')'];
            let n = digits_value(d) as nat;
            &&& (c == 'X' || c == 'A') ==> storage_of(p) == Ok::<(nat, bool, bool), Refusal>(
                (n, false, false),
            )
            &&& (c == '9' || c == 'Z' || c == '*' || c == '.' || c == ',' || c == '-' || c == '+')
                ==> storage_of(p) == Ok::<(nat, bool, bool), Refusal>((n, true, false))
            &&& c == 'S' ==> storage_of(p) == Ok::<(nat, bool, bool), Refusal>((0, true, true))
            &&& c == 'V' ==> storage_of(p) == Ok::<(nat, bool, bool), Refusal>((0, true, false))
        }),
{
    let p = seq![c, '('] + d + seq![')'];
    let close = d.len() + 2;
    assert(p[1] == '(');
    assert(p[close as int] == ')');
    assert forall|k: int| 2 <= k < close implies '0' <= #[trigger] p[k] && p[k] <= '9' by {
        assert(p[k] == d[k - 2]);
    }
    lemma_close_paren_after_digits(p, 2, close as int);
    assert(p.subrange(2, close as int) =~= d);
    assert(!is_space(d[0]));
    assert(!is_space(d.last()));
    assert(trim_start(d) == d);
    assert(trim(d) == d);
    assert(all_digits(d));
    assert(d[0] != '+');
    assert(parse_unsigned(d, usize::MAX as nat) == Some(digits_value(d) as nat));
    assert(p[0] == c);
    lemma_digits_value_grows(d, 0);
    assert(digits_value(d) >= 0);
    let n = digits_value(d) as nat;
    assert(close_paren(p, 2) == close);
    assert(upper(c) == c || ('a' <= c && c <= 'z'));
    assert(measure_from(p, close + 1, n, false, false) == Ok::<(nat, bool, bool), Refusal>((n, false, false)));
    assert(measure_from(p, close + 1, n, true, false) == Ok::<(nat, bool, bool), Refusal>((n, true, false)));
    assert(measure_from(p, close + 1, 0, true, true) == Ok::<(nat, bool, bool), Refusal>((0, true, true)));
    assert(measure_from(p, close + 1, 0, true, false) == Ok::<(nat, bool, bool), Refusal>((0, true, false)));
}

/// Every `(` in `p` is closed by a `)` after it in `p`.
pub open spec fn groups_closed(p: Seq<char>) -> bool {
    forall|k: int| 0 <= k < p.len() && p[k] == '(' ==> #[trigger] close_paren(p, (k + 1) as nat)
        < p.len()
}

proof fn lemma_close_paren_prefix(p: Seq<char>, q: Seq<char>, from: nat)
    requires
        close_paren(p, from) < p.len(),
    ensures
        close_paren(p + q, from) == close_paren(p, from),
    decreases p.len() - from,
{
    if from < p.len() && p[from as int] != ')' {
        assert((p + q)[from as int] == p[from as int]);
        lemma_close_paren_prefix(p, q, from + 1);
    } else {
        assert((p + q)[from as int] == p[from as int]);
    }
}

proof fn lemma_close_paren_suffix(p: Seq<char>, q: Seq<char>, from: nat)
    ensures
        close_paren(p + q, p.len() + from) == p.len() + close_paren(q, from),
    decreases q.len() - from,
{
    if from < q.len() {
        assert((p + q)[(p.len() + from) as int] == q[from as int]);
        if q[from as int] != ')' {
            lemma_close_paren_suffix(p, q, from + 1);
        }
    }
}

/// The picture `q`, measured after `p`, reads as it does alone.
proof fn lemma_measure_after(p: Seq<char>, q: Seq<char>, j: nat, l: nat, n: bool, s: bool)
    requires
        measure_from(q, j, l, n, s) is Ok,
    ensures
        measure_from(p + q, p.len() + j, l, n, s) == measure_from(q, j, l, n, s),
    decreases q.len() - j,
{
    let pq = p + q;
    let i: nat = p.len() + j;
    if j < q.len() {
        assert(pq[i as int] == q[j as int]);
        if j + 1 < q.len() {
            assert(pq[(i + 1) as int] == q[j + 1 as int]);
        }
        lemma_close_paren_suffix(p, q, j + 2);
        lemma_close_paren(q, j + 2);
        let close = close_paren(q, j + 2);
        if j + 1 < q.len() && q[j + 1 as int] == '(' {
            assert(pq.subrange(i + 2 as int, (p.len() + close) as int) =~= q.subrange(
                j + 2 as int,
                close as int,
            ));
        }
        let grouped = j + 1 < q.len() && q[j + 1 as int] == '(';
        let next: nat = if grouped {
            if close < q.len() {
                close + 1
            } else {
                q.len()
            }
        } else {
            j + 1
        };
        let repeat = if grouped {
            parse_unsigned(trim(q.subrange(j + 2 as int, close as int)), usize::MAX as nat)
        } else {
            Some(1nat)
        };
        if let Some(r) = repeat {
            let u = upper(q[j as int]);
            if u == 'X' || u == 'A' {
                if l + r <= usize::MAX {
                    lemma_measure_after(p, q, next, l + r, false, s);
                }
            } else if is_numeric_symbol(u) {
                if l + r <= usize::MAX {
                    lemma_measure_after(p, q, next, l + r, n, s);
                }
            } else if u == 'S' {
                lemma_measure_after(p, q, next, l, n, true);
            } else if u == 'V' {
                lemma_measure_after(p, q, next, l, n, s);
            }
        }
    }
}

/// The picture `p`, measured with `q` after it, reads as it does alone and
/// hands over to `q` where `p` ends.
proof fn lemma_measure_before(p: Seq<char>, q: Seq<char>, i: nat, l: nat, n: bool, s: bool)
    requires
        i <= p.len(),
        groups_closed(p),
        q.len() == 0 || q[0] != '(',
        measure_from(p, i, l, n, s) is Ok,
    ensures
        ({
            let (l1, n1, s1) = measure_from(p, i, l, n, s)->Ok_0;
            measure_from(p + q, i, l, n, s) == measure_from(p + q, p.len(), l1, n1, s1)
        }),
    decreases p.len() - i,
{
    let pq = p + q;
    if i < p.len() {
        assert(pq[i as int] == p[i as int]);
        if i + 1 < p.len() {
            assert(pq[(i + 1) as int] == p[i + 1 as int]);
        } else if i + 1 < pq.len() {
            assert(pq[(i + 1) as int] == q[0]);
        }
        let grouped = i + 1 < p.len() && p[i + 1 as int] == '(';
        let close = close_paren(p, i + 2);
        lemma_close_paren(p, i + 2);
        if grouped {
            assert(close_paren(p, ((i + 1) + 1) as nat) < p.len());
            lemma_close_paren_prefix(p, q, i + 2);
            assert(pq.subrange(i + 2 as int, close as int) =~= p.subrange(i + 2 as int, close as int));
        }
        let next: nat = if grouped {
            if close < p.len() {
                close + 1
            } else {
                p.len()
            }
        } else {
            i + 1
        };
        let repeat = if grouped {
            parse_unsigned(trim(p.subrange(i + 2 as int, close as int)), usize::MAX as nat)
        } else {
            Some(1nat)
        };
        if let Some(r) = repeat {
            let u = upper(p[i as int]);
            if u == 'X' || u == 'A' {
                lemma_measure_before(p, q, next, l + r, false, s);
            } else if is_numeric_symbol(u) {
                lemma_measure_before(p, q, next, l + r, n, s);
            } else if u == 'S' {
                lemma_measure_before(p, q, next, l, n, true);
            } else if u == 'V' {
                lemma_measure_before(p, q, next, l, n, s);
            }
        }
    }
}

/// Two pictures joined measure the sum of their lengths, numeric when both
/// are and signed when either is, provided the first closes every repeat it
/// opens and the second does not begin with a repeat, which would count for
/// the first one's last symbol.
pub proof fn lemma_pictures_join(p: Seq<char>, q: Seq<char>)
    requires
        groups_closed(p),
        q.len() == 0 || q[0] != '(',
        storage_of(p) is Ok,
        storage_of(q) is Ok,
        storage_of(p)->Ok_0.0 + storage_of(q)->Ok_0.0 <= usize::MAX,
    ensures
        storage_of(p + q) == Ok::<(nat, bool, bool), Refusal>(
            (
                storage_of(p)->Ok_0.0 + storage_of(q)->Ok_0.0,
                storage_of(p)->Ok_0.1 && storage_of(q)->Ok_0.1,
                storage_of(p)->Ok_0.2 || storage_of(q)->Ok_0.2,
            ),
        ),
{
    let (l1, n1, s1) = storage_of(p)->Ok_0;
    lemma_measure_before(p, q, 0, 0, true, false);
    lemma_measure_adds(q, 0, l1, n1, s1);
    lemma_measure_after(p, q, 0, l1, n1, s1);
}

// ---------------------------------------------------------------------------
// Field values
// ---------------------------------------------------------------------------

proof fn lemma_strip_leading_signs(lead: Seq<char>, r: Seq<char>)
    requires
        forall|k: int| 0 <= k < lead.len() ==> lead[k] == '+' || lead[k] == '-',
        r.len() > 0,
        r[0] != '+' && r[0] != '-',
    ensures
        trim_start_signs(lead + r) == r,
    decreases lead.len(),
{
    if lead.len() == 0 {
        assert(lead + r =~= r);
    } else {
        assert((lead + r)[0] == lead[0]);
        assert((lead + r).drop_first() =~= lead.drop_first() + r);
        lemma_strip_leading_signs(lead.drop_first(), r);
    }
}

proof fn lemma_strip_trailing_signs(r: Seq<char>, tail: Seq<char>)
    requires
        forall|k: int| 0 <= k < tail.len() ==> tail[k] == '+' || tail[k] == '-',
        r.len() > 0,
        r.last() != '+' && r.last() != '-',
    ensures
        trim_end_signs(r + tail) == r,
    decreases tail.len(),
{
    if tail.len() == 0 {
        assert(r + tail =~= r);
    } else {
        assert((r + tail).last() == tail.last());
        assert((r + tail).drop_last() =~= r + tail.drop_last());
        lemma_strip_trailing_signs(r, tail.drop_last());
    }
}

proof fn lemma_strip_all_signs(t: Seq<char>)
    requires
        forall|k: int| 0 <= k < t.len() ==> t[k] == '+' || t[k] == '-',
    ensures
        trim_start_signs(t).len() == 0,
    decreases t.len(),
{
    if t.len() > 0 {
        lemma_strip_all_signs(t.drop_first());
    }
}

/// A numeric field's value, once trimmed, is read as signs, then a body
/// that neither starts nor ends with a sign, then signs. It fits the field
/// exactly when it carries at most one sign, and that only if the picture
/// is signed, and every character of the body is an ASCII digit, `.` or `,`,
/// wherever it stands.
pub proof fn lemma_numeric_value_fits(
    field: SpecField,
    value: Seq<char>,
    lead: Seq<char>,
    body: Seq<char>,
    tail: Seq<char>,
)
    requires
        field.numeric,
        trim(value) == lead + body + tail,
        forall|k: int| 0 <= k < lead.len() ==> lead[k] == '+' || lead[k] == '-',
        forall|k: int| 0 <= k < tail.len() ==> tail[k] == '+' || tail[k] == '-',
        body.len() > 0,
        body[0] != '+' && body[0] != '-',
        body.last() != '+' && body.last() != '-',
    ensures
        departure(field, value) is None <==> {
            &&& (lead.len() + tail.len() == 0 || (lead.len() + tail.len() == 1 && field.signed))
            &&& forall|k: int|
                0 <= k < body.len() ==> ('0' <= #[trigger] body[k] && body[k] <= '9') || body[k]
                    == '.' || body[k] == ','
        },
        !(lead.len() + tail.len() == 0 || (lead.len() + tail.len() == 1 && field.signed))
            ==> departure(field, value) == Some(
            debug_text(trim(value)) + " carries a sign the picture does not"@,
        ),
        (lead.len() + tail.len() == 0 || (lead.len() + tail.len() == 1 && field.signed)) && (
        exists|k: int|
            0 <= k < body.len() && !(('0' <= #[trigger] body[k] && body[k] <= '9') || body[k]
                == '.' || body[k] == ',')) ==> departure(field, value) == Some(
            debug_text(trim(value)) + " is not numeric"@,
        ),
{
    let t = trim(value);
    assert(lead + body + tail =~= lead + (body + tail));
    assert((body + tail)[0] == body[0]);
    lemma_strip_leading_signs(lead, body + tail);
    lemma_strip_trailing_signs(body, tail);
    assert(trim_end_signs(trim_start_signs(t)) == body);
}

/// A numeric field's value that is nothing but signs fits the field exactly
/// when it is one sign and the picture is signed; a blank value always fits,
/// and so does any value of a field that is not numeric.
pub proof fn lemma_sign_or_blank_value_fits(field: SpecField, value: Seq<char>)
    ensures
        !field.numeric ==> departure(field, value) is None,
        trim(value).len() == 0 ==> departure(field, value) is None,
        (field.numeric && trim(value).len() > 0 && forall|k: int|
            0 <= k < trim(value).len() ==> trim(value)[k] == '+' || trim(value)[k] == '-') ==> (
        departure(field, value) is None <==> (trim(value).len() == 1 && field.signed)),
{
    let t = trim(value);
    if field.numeric && t.len() > 0 && forall|k: int| 0 <= k < t.len() ==> t[k] == '+' || t[k] == '-' {
        lemma_strip_all_signs(t);
        assert(trim_start_signs(t) =~= Seq::<char>::empty());
    }
}

// ---------------------------------------------------------------------------
// Statements
// ---------------------------------------------------------------------------

/// A comment line, or a blank one, adds nothing to the source the statements
/// are cut from, wherever it stands among the lines.
pub proof fn lemma_comment_lines_add_nothing(lines: Seq<Seq<char>>, k: int, line: Seq<char>)
    requires
        0 <= k <= lines.len(),
        trim_start(sequence_stripped(line)).len() == 0 || trim_start(sequence_stripped(line))[0]
            == '*',
    ensures
        source_of(lines.insert(k, line)) == source_of(lines),
    decreases lines.len(),
{
    let t = lines.insert(k, line);
    if k == lines.len() {
        assert(t.drop_last() =~= lines);
        assert(t.last() == line);
        assert(source_of(lines) + Seq::<char>::empty() =~= source_of(lines));
    } else {
        assert(t.drop_last() =~= lines.drop_last().insert(k, line));
        assert(t.last() == lines.last());
        lemma_comment_lines_add_nothing(lines.drop_last(), k, line);
    }
}

/// Reading clauses from `clauses[i]` into `item` comes to the clause at
/// `clauses[j]`: every clause before it is read, one after another, and none
/// is refused.
pub open spec fn reaches(clauses: Seq<Seq<char>>, i: int, j: int, item: SpecItem) -> bool
    decreases clauses.len() - i,
{
    if i == j {
        true
    } else if i < 0 || i >= clauses.len() || j < i {
        false
    } else {
        match clause_step(clauses, i, item) {
            Err(_) => false,
            Ok((next, it)) => i < next <= clauses.len() && reaches(clauses, next, j, it),
        }
    }
}

proof fn lemma_reached_usage(clauses: Seq<Seq<char>>, i: int, j: int, item: SpecItem)
    requires
        reaches(clauses, i, j, item),
        0 <= j < clauses.len(),
        is_binary_usage(clauses[j]),
    ensures
        read_clauses(clauses, i, item) == Err::<SpecItem, Refusal>(
            Refusal::Usage { word: clauses[j], name: item.name },
        ),
    decreases clauses.len() - i,
{
    if i != j {
        let (next, it) = clause_step(clauses, i, item)->Ok_0;
        lemma_reached_usage(clauses, next, j, it);
    } else {
        lemma_usage_letters(clauses[j]);
        reveal_strlit("PIC");
        reveal_strlit("PICTURE");
        reveal_strlit("OCCURS");
        reveal_strlit("DEPENDING");
        reveal_strlit("REDEFINES");
        reveal_strlit("VALUE");
        let w = clauses[j];
        assert(w != "PIC"@) by {
            if w == "PIC"@ {
                assert(w[1] == 'I');
            }
        }
        assert(w != "PICTURE"@) by {
            if w == "PICTURE"@ {
                assert(w[1] == 'I');
            }
        }
        assert(w != "OCCURS"@) by {
            if w == "OCCURS"@ {
                assert(w[0] == 'O');
            }
        }
        assert(w != "DEPENDING"@) by {
            if w == "DEPENDING"@ {
                assert(w[0] == 'D');
            }
        }
        assert(w != "REDEFINES"@) by {
            if w == "REDEFINES"@ {
                assert(w[0] == 'R');
            }
        }
        assert(w != "VALUE"@) by {
            if w == "VALUE"@ {
                assert(w[0] == 'V');
            }
        }
    }
}

/// The first letters of a usage that is not text.
proof fn lemma_usage_letters(w: Seq<char>)
    requires
        is_binary_usage(w),
    ensures
        w.len() >= 4,
        w[0] == 'C' || w[0] == 'B' || w[0] == 'I' || (w[0] == 'P' && (w[1] == 'O' || w[1] == 'A')),
{
    reveal_strlit("COMP");
    reveal_strlit("COMP-1");
    reveal_strlit("COMP-2");
    reveal_strlit("COMP-3");
    reveal_strlit("COMP-4");
    reveal_strlit("COMP-5");
    reveal_strlit("COMPUTATIONAL");
    reveal_strlit("COMPUTATIONAL-3");
    reveal_strlit("BINARY");
    reveal_strlit("PACKED-DECIMAL");
    reveal_strlit("POINTER");
    reveal_strlit("INDEX");
}

/// A usage other than `DISPLAY` is refused by name: a statement whose
/// clauses are read up to one of the twelve usage words that are not text,
/// with no refusal before it, is refused naming that word and the item.
pub proof fn lemma_binary_usage_refused_by_name(statement: Seq<char>, j: int)
    requires
        words(statement).len() >= 2,
        parse_unsigned(words(statement)[0], 255) matches Some(level) && is_level(level),
        ({
            let w = words(statement);
            let clauses = w.skip(2).map_values(|x: Seq<char>| upper_all(x));
            let item = SpecItem {
                level: parse_unsigned(w[0], 255)->Some_0,
                name: upper_all(w[1]),
                picture: None,
                occurs: 1,
                redefines: None,
            };
            &&& 0 <= j < clauses.len()
            &&& {
                ||| clauses[j] == "COMP"@
                ||| clauses[j] == "COMP-1"@
                ||| clauses[j] == "COMP-2"@
                ||| clauses[j] == "COMP-3"@
                ||| clauses[j] == "COMP-4"@
                ||| clauses[j] == "COMP-5"@
                ||| clauses[j] == "COMPUTATIONAL"@
                ||| clauses[j] == "COMPUTATIONAL-3"@
                ||| clauses[j] == "BINARY"@
                ||| clauses[j] == "PACKED-DECIMAL"@
                ||| clauses[j] == "POINTER"@
                ||| clauses[j] == "INDEX"@
            }
            &&& reaches(clauses, 0, j, item)
        }),
    ensures
        read_item(statement) == Err::<Option<SpecItem>, Refusal>(
            Refusal::Usage {
                word: words(statement).skip(2).map_values(|x: Seq<char>| upper_all(x))[j],
                name: upper_all(words(statement)[1]),
            },
        ),
{
    let w = words(statement);
    let clauses = w.skip(2).map_values(|x: Seq<char>| upper_all(x));
    let level = parse_unsigned(w[0], 255)->Some_0;
    let item = SpecItem { level, name: upper_all(w[1]), picture: None, occurs: 1, redefines: None };
    assert(is_binary_usage(clauses[j]));
    lemma_reached_usage(clauses, 0, j, item);
}

proof fn lemma_sign_separate_shift(cl: Seq<Seq<char>>, i: int, k: int)
    requires
        0 <= i <= k,
        i <= cl.len(),
    ensures
        sign_separate(cl, k) == sign_separate(cl.skip(i), k - i),
    decreases cl.len() - k,
{
    if k < cl.len() {
        assert(cl.skip(i)[k - i] == cl[k]);
        lemma_sign_separate_shift(cl, i, k + 1);
    }
}

proof fn lemma_quote_close_shift(cl: Seq<Seq<char>>, i: int, k: int, q: char)
    requires
        0 <= i <= k,
        i <= cl.len(),
    ensures
        quote_close(cl, k, q) == quote_close(cl.skip(i), k - i, q) + i,
    decreases cl.len() - k,
{
    if k < cl.len() {
        assert(cl.skip(i)[k - i] == cl[k]);
        lemma_quote_close_shift(cl, i, k + 1, q);
    }
}

proof fn lemma_clause_step_shift(cl: Seq<Seq<char>>, i: int, item: SpecItem)
    requires
        0 <= i < cl.len(),
    ensures
        clause_step(cl, i, item) == match clause_step(cl.skip(i), 0, item) {
            Ok((n, it)) => Ok::<(int, SpecItem), Refusal>((n + i, it)),
            Err(e) => Err(e),
        },
{
    let c = cl.skip(i);
    assert(forall|m: int| 0 <= m < c.len() ==> #[trigger] c[m] == cl[m + i]);
    assert(c[0] == cl[i]);
    if i + 1 < cl.len() {
        assert(c[1] == cl[i + 1]);
    }
    if i + 2 < cl.len() {
        assert(c[2] == cl[i + 2]);
    }
    if i + 3 < cl.len() {
        assert(c[3] == cl[i + 3]);
    }
    lemma_sign_separate_shift(cl, i, i);
    let j = if i + 1 < cl.len() && cl[i + 1] == "IS"@ {
        i + 2
    } else {
        i + 1
    };
    let k = if j < cl.len() && cl[j] == "ALL"@ {
        j + 1
    } else {
        j
    };
    if k < cl.len() {
        assert(c[k - i] == cl[k]);
        lemma_quote_close_shift(cl, i, k + 1, cl[k][0]);
        assert(literal_end(cl, k) == literal_end(c, k - i) + i);
    }
}

/// Reading the clauses from one on depends only on the words from there on.
pub proof fn lemma_read_clauses_from(cl: Seq<Seq<char>>, i: int, item: SpecItem)
    requires
        0 <= i <= cl.len(),
    ensures
        read_clauses(cl, i, item) == read_clauses(cl.skip(i), 0, item),
    decreases cl.len() - i,
{
    if i < cl.len() {
        let c = cl.skip(i);
        lemma_clause_step_shift(cl, i, item);
        match clause_step(cl, i, item) {
            Err(_) => {},
            Ok((next, it)) => {
                if i < next <= cl.len() {
                    lemma_read_clauses_from(cl, next, it);
                    let n = next - i;
                    assert(c.skip(n) =~= cl.skip(next));
                    lemma_read_clauses_from(c, n, it);
                }
            },
        }
    } else {
        assert(cl.skip(i).len() == 0);
    }
}

proof fn lemma_quote_close_in(cl: Seq<Seq<char>>, from: int, m: int, end: int, q: char)
    requires
        0 <= from <= m < end <= cl.len(),
        cl[end - 1].len() > 0 && cl[end - 1].last() == q,
        forall|x: int| from <= x < end - 1 ==> cl[x].len() == 0 || cl[x].last() != q,
    ensures
        quote_close(cl, m, q) == end,
    decreases end - m,
{
    if m < end - 1 {
        lemma_quote_close_in(cl, from, m + 1, end, q);
    }
}

/// A `VALUE` clause, with or without `IS` and `ALL`, whose literal is quoted
/// with `'` or `"` and spans any number of words, is read and ignored:
/// reading from it on is reading what follows it.
pub proof fn lemma_quoted_value_is_ignored(
    is_: bool,
    all: bool,
    lit: Seq<Seq<char>>,
    q: char,
    rest: Seq<Seq<char>>,
    item: SpecItem,
)
    requires
        q == '\'' || q == '"',
        lit.len() >= 1,
        lit[0].len() >= 1 && lit[0][0] == q,
        lit.last().len() >= 1 && lit.last().last() == q,
        lit.len() == 1 ==> lit[0].len() >= 2,
        lit.len() > 1 ==> lit[0].len() < 2 || lit[0].last() != q,
        forall|k: int| 1 <= k < lit.len() - 1 ==> lit[k].len() == 0 || lit[k].last() != q,
    ensures
        ({
            let head = seq!["VALUE"@] + (if is_ {
                seq!["IS"@]
            } else {
                Seq::<Seq<char>>::empty()
            }) + (if all {
                seq!["ALL"@]
            } else {
                Seq::<Seq<char>>::empty()
            });
            read_clauses(head + lit + rest, 0, item) == read_clauses(rest, 0, item)
        }),
{
    reveal_strlit("VALUE");
    reveal_strlit("IS");
    reveal_strlit("ALL");
    reveal_strlit("PIC");
    reveal_strlit("PICTURE");
    reveal_strlit("OCCURS");
    reveal_strlit("DEPENDING");
    reveal_strlit("REDEFINES");
    let head = seq!["VALUE"@] + (if is_ {
        seq!["IS"@]
    } else {
        Seq::<Seq<char>>::empty()
    }) + (if all {
        seq!["ALL"@]
    } else {
        Seq::<Seq<char>>::empty()
    });
    let cl = head + lit + rest;
    let k = head.len() as int;
    let end = k + lit.len();
    assert(cl[0] == "VALUE"@);
    assert(forall|x: int| 0 <= x < lit.len() ==> #[trigger] cl[k + x] == lit[x]);
    assert(cl[k] == lit[0]);
    assert(cl[k] != "IS"@ && cl[k] != "ALL"@) by {
        assert(lit[0][0] != 'I' && lit[0][0] != 'A');
        if cl[k] == "IS"@ {
            assert(cl[k][0] == 'I');
        }
        if cl[k] == "ALL"@ {
            assert(cl[k][0] == 'A');
        }
    }
    if is_ {
        assert(cl[1] == "IS"@);
        if all {
            assert(cl[2] == "ALL"@);
        } else {
            assert(cl[2] == lit[0]);
        }
    } else if all {
        assert(cl[1] == "ALL"@);
    } else {
        assert(cl[1] == lit[0]);
    }
    assert("VALUE"@ != "PIC"@ && "VALUE"@ != "PICTURE"@ && "VALUE"@ != "OCCURS"@ && "VALUE"@
        != "DEPENDING"@ && "VALUE"@ != "REDEFINES"@) by {
        assert("VALUE"@[0] == 'V');
    }
    if lit.len() > 1 {
        assert(cl[end - 1] == lit.last());
        assert forall|x: int| k + 1 <= x < end - 1 implies cl[x].len() == 0 || cl[x].last() != q by {
            assert(cl[x] == lit[x - k]);
        }
        lemma_quote_close_in(cl, k + 1, k + 1, end, q);
    }
    assert(literal_end(cl, k) == end);
    assert(clause_step(cl, 0, item) == Ok::<(int, SpecItem), Refusal>((end, item)));
    lemma_read_clauses_from(cl, end, item);
    assert(cl.skip(end) =~= rest);
}

/// A `VALUE` clause, with or without `IS` and `ALL`, whose literal is one
/// unquoted word, such as `ZERO` or `12`, is read and ignored: reading from
/// it on is reading what follows it.
pub proof fn lemma_plain_value_is_ignored(
    is_: bool,
    all: bool,
    w: Seq<char>,
    rest: Seq<Seq<char>>,
    item: SpecItem,
)
    requires
        w.len() > 0,
        w[0] != '\'' && w[0] != '"',
        w != "IS"@ && w != "ALL"@,
    ensures
        ({
            let head = seq!["VALUE"@] + (if is_ {
                seq!["IS"@]
            } else {
                Seq::<Seq<char>>::empty()
            }) + (if all {
                seq!["ALL"@]
            } else {
                Seq::<Seq<char>>::empty()
            });
            read_clauses(head + seq![w] + rest, 0, item) == read_clauses(rest, 0, item)
        }),
{
    reveal_strlit("VALUE");
    reveal_strlit("IS");
    reveal_strlit("ALL");
    reveal_strlit("PIC");
    reveal_strlit("PICTURE");
    reveal_strlit("OCCURS");
    reveal_strlit("DEPENDING");
    reveal_strlit("REDEFINES");
    let head = seq!["VALUE"@] + (if is_ {
        seq!["IS"@]
    } else {
        Seq::<Seq<char>>::empty()
    }) + (if all {
        seq!["ALL"@]
    } else {
        Seq::<Seq<char>>::empty()
    });
    let cl = head + seq![w] + rest;
    let k = head.len() as int;
    let end = k + 1;
    assert(cl[0] == "VALUE"@);
    assert(cl[k] == w);
    if is_ {
        assert(cl[1] == "IS"@);
        if all {
            assert(cl[2] == "ALL"@);
        } else {
            assert(cl[2] == w);
        }
    } else if all {
        assert(cl[1] == "ALL"@);
    } else {
        assert(cl[1] == w);
    }
    assert("VALUE"@ != "PIC"@ && "VALUE"@ != "PICTURE"@ && "VALUE"@ != "OCCURS"@ && "VALUE"@
        != "DEPENDING"@ && "VALUE"@ != "REDEFINES"@) by {
        assert("VALUE"@[0] == 'V');
    }
    assert(literal_end(cl, k) == end);
    assert(clause_step(cl, 0, item) == Ok::<(int, SpecItem), Refusal>((end, item)));
    lemma_read_clauses_from(cl, end, item);
    assert(cl.skip(end) =~= rest);
}

/// The sequence area: a line whose first six characters are ASCII digits or
/// spaces and whose seventh is a space or `*` loses those six characters;
/// any other line is read whole.
pub proof fn lemma_sequence_area(line: Seq<char>)
    ensures
        ({
            let fixed = line.len() > 6 && (forall|k: int|
                0 <= k < 6 ==> ('0' <= #[trigger] line[k] && line[k] <= '9') || line[k] == ' ')
                && (line[6] == ' ' || line[6] == '*');
            &&& fixed ==> sequence_stripped(line) == line.skip(6)
            &&& !fixed ==> sequence_stripped(line) == line
        }),
{
}

/// Levels: a statement at level 66 or 88 declares nothing; one at a level
/// other than 01 to 49 and 77 is refused, naming the level as written; one
/// at a level of the subset is read as an item at that level, named in
/// upper case, or refused for a clause.
pub proof fn lemma_levels(statement: Seq<char>)
    requires
        words(statement).len() >= 2,
        parse_unsigned(words(statement)[0], 255) is Some,
    ensures
        ({
            let w = words(statement);
            let level = parse_unsigned(w[0], 255)->Some_0;
            &&& (level == 66 || level == 88) ==> read_item(statement) == Ok::<
                Option<SpecItem>,
                Refusal,
            >(None)
            &&& !(level == 66 || level == 88 || (1 <= level && level <= 49) || level == 77)
                ==> read_item(statement) == Err::<Option<SpecItem>, Refusal>(
                Refusal::Level { level: w[0] },
            )
            &&& ((1 <= level && level <= 49) || level == 77) ==> match read_item(statement) {
                Ok(Some(item)) => item.level == level && item.name == upper_all(w[1]),
                Ok(None) => false,
                Err(e) => !(e is Level),
            }
        }),
{
    let w = words(statement);
    let level = parse_unsigned(w[0], 255)->Some_0;
    if (1 <= level && level <= 49) || level == 77 {
        let item = SpecItem {
            level,
            name: upper_all(w[1]),
            picture: None,
            occurs: 1,
            redefines: None,
        };
        lemma_clauses_keep(w.skip(2).map_values(|x: Seq<char>| upper_all(x)), 0, item);
    }
}

/// Reading clauses keeps the item's level and name, and never refuses for
/// a level.
proof fn lemma_clauses_keep(cl: Seq<Seq<char>>, i: int, item: SpecItem)
    ensures
        match read_clauses(cl, i, item) {
            Ok(it) => it.level == item.level && it.name == item.name,
            Err(e) => !(e is Level),
        },
    decreases cl.len() - i,
{
    if 0 <= i < cl.len() {
        match clause_step(cl, i, item) {
            Err(_) => {},
            Ok((next, it)) => {
                if i < next <= cl.len() {
                    lemma_clauses_keep(cl, next, it);
                }
            },
        }
    }
}

/// Words that change nothing: `TIMES`, `USAGE`, `IS`, `DISPLAY`,
/// `JUSTIFIED`, `JUST` and `RIGHT` standing as a clause are skipped, and
/// reading goes on with what follows.
pub proof fn lemma_ignored_words(w: Seq<char>, rest: Seq<Seq<char>>, item: SpecItem)
    requires
        w == "TIMES"@ || w == "USAGE"@ || w == "IS"@ || w == "DISPLAY"@ || w == "JUSTIFIED"@ || w
            == "JUST"@ || w == "RIGHT"@,
    ensures
        read_clauses(seq![w] + rest, 0, item) == read_clauses(rest, 0, item),
{
    let cl = seq![w] + rest;
    assert(cl[0] == w);
    lemma_keyword_letters(w);
    assert(clause_step(cl, 0, item) == Ok::<(int, SpecItem), Refusal>((1, item)));
    lemma_read_clauses_from(cl, 1, item);
    assert(cl.skip(1) =~= rest);
}

/// The ignored words are none of the clause keywords.
proof fn lemma_keyword_letters(w: Seq<char>)
    requires
        w == "TIMES"@ || w == "USAGE"@ || w == "IS"@ || w == "DISPLAY"@ || w == "JUSTIFIED"@ || w
            == "JUST"@ || w == "RIGHT"@,
    ensures
        w != "PIC"@ && w != "PICTURE"@ && w != "OCCURS"@ && w != "DEPENDING"@ && w
            != "REDEFINES"@ && w != "VALUE"@ && w != "SEPARATE"@ && w != "SIGN"@ && w
            != "LEADING"@ && w != "TRAILING"@ && w != "COPY"@,
        !is_binary_usage(w),
        is_ignored_word(w),
{
    reveal_strlit("TIMES");
    reveal_strlit("USAGE");
    reveal_strlit("IS");
    reveal_strlit("DISPLAY");
    reveal_strlit("JUSTIFIED");
    reveal_strlit("JUST");
    reveal_strlit("RIGHT");
    reveal_strlit("PIC");
    reveal_strlit("PICTURE");
    reveal_strlit("OCCURS");
    reveal_strlit("DEPENDING");
    reveal_strlit("REDEFINES");
    reveal_strlit("VALUE");
    reveal_strlit("SEPARATE");
    reveal_strlit("SIGN");
    reveal_strlit("LEADING");
    reveal_strlit("TRAILING");
    reveal_strlit("COPY");
    assert(w.len() >= 2);
    assert((w[0] == 'T' && w[1] == 'I') || (w[0] == 'U' && w[1] == 'S') || (w[0] == 'I' && w[1]
        == 'S') || (w[0] == 'D' && w[1] == 'I') || (w[0] == 'J' && w[1] == 'U') || (w[0] == 'R'
        && w[1] == 'I'));
    assert(w != "PIC"@) by {
        if w == "PIC"@ {
            assert(w[0] == 'P' && w[1] == 'I');
        }
    }
    assert(w != "PICTURE"@) by {
        if w == "PICTURE"@ {
            assert(w[0] == 'P' && w[1] == 'I');
        }
    }
    assert(w != "OCCURS"@) by {
        if w == "OCCURS"@ {
            assert(w[0] == 'O' && w[1] == 'C');
        }
    }
    assert(w != "DEPENDING"@) by {
        if w == "DEPENDING"@ {
            assert(w[0] == 'D' && w[1] == 'E');
        }
    }
    assert(w != "REDEFINES"@) by {
        if w == "REDEFINES"@ {
            assert(w[0] == 'R' && w[1] == 'E');
        }
    }
    assert(w != "VALUE"@) by {
        if w == "VALUE"@ {
            assert(w[0] == 'V' && w[1] == 'A');
        }
    }
    assert(w != "SEPARATE"@) by {
        if w == "SEPARATE"@ {
            assert(w[0] == 'S' && w[1] == 'E');
        }
    }
    assert(w != "SIGN"@) by {
        if w == "SIGN"@ {
            assert(w[0] == 'S' && w[1] == 'I');
        }
    }
    assert(w != "LEADING"@) by {
        if w == "LEADING"@ {
            assert(w[0] == 'L' && w[1] == 'E');
        }
    }
    assert(w != "TRAILING"@) by {
        if w == "TRAILING"@ {
            assert(w[0] == 'T' && w[1] == 'R');
        }
    }
    assert(w != "COPY"@) by {
        if w == "COPY"@ {
            assert(w[0] == 'C' && w[1] == 'O');
        }
    }
    if is_binary_usage(w) {
        lemma_usage_letters(w);
        if w[0] == 'I' {
            reveal_strlit("INDEX");
            assert(w.len() == 5);
        }
    }
}

/// A clause word outside the subset is refused, naming the word and the item.
pub proof fn lemma_unknown_word_refused(w: Seq<char>, rest: Seq<Seq<char>>, item: SpecItem)
    requires
        !(w == "PIC"@ || w == "PICTURE"@ || w == "OCCURS"@ || w == "DEPENDING"@ || w
            == "REDEFINES"@ || w == "VALUE"@ || w == "SEPARATE"@ || w == "SIGN"@ || w
            == "LEADING"@ || w == "TRAILING"@ || w == "COPY"@ || w == "TIMES"@ || w == "USAGE"@
            || w == "IS"@ || w == "DISPLAY"@ || w == "JUSTIFIED"@ || w == "JUST"@ || w
            == "RIGHT"@ || w == "COMP"@ || w == "COMP-1"@ || w == "COMP-2"@ || w == "COMP-3"@ || w
            == "COMP-4"@ || w == "COMP-5"@ || w == "COMPUTATIONAL"@ || w == "COMPUTATIONAL-3"@
            || w == "BINARY"@ || w == "PACKED-DECIMAL"@ || w == "POINTER"@ || w == "INDEX"@),
    ensures
        read_clauses(seq![w] + rest, 0, item) == Err::<SpecItem, Refusal>(
            Refusal::Clause { word: w, name: item.name },
        ),
{
    let cl = seq![w] + rest;
    assert(cl[0] == w);
}

proof fn lemma_word_start(s: Seq<char>, lo: int, j: int)
    requires
        0 <= lo <= j <= s.len(),
        lo == 0 || is_space(s[lo - 1]),
        forall|k: int| lo <= k < j ==> !is_space(#[trigger] s[k]),
    ensures
        word_start(s, j) == lo,
    decreases j,
{
    if j > lo {
        lemma_word_start(s, lo, j - 1);
    }
}

/// A full stop followed by a space, or ending the source, ends a statement.
pub proof fn lemma_full_stop_ends(s: Seq<char>, i: int)
    requires
        0 <= i < s.len(),
        s[i] == '.',
        i + 1 == s.len() || s[i + 1] == ' ',
    ensures
        is_stop(s, i),
{
}

/// A full stop within a picture string, the word after `PIC` or `PICTURE`,
/// that more of the string follows, ends no statement: `PIC ZZ9.99.` is one
/// picture.
pub proof fn lemma_full_stop_in_picture(x: Seq<char>, kw: Seq<char>, y: Seq<char>, m: int)
    requires
        kw == "PIC"@ || kw == "PICTURE"@,
        0 <= m,
        m + 1 < y.len(),
        y[m] == '.',
        forall|k: int| 0 <= k < y.len() ==> !is_space(#[trigger] y[k]),
    ensures
        !is_stop(x + seq![' '] + kw + seq![' '] + y, x.len() + kw.len() + 2 + m),
{
    reveal_strlit("PIC");
    reveal_strlit("PICTURE");
    let s = x + seq![' '] + kw + seq![' '] + y;
    let a: int = x.len() as int + 1;
    let b: int = a + kw.len() + 1;
    let i: int = b + m;
    assert(forall|k: int| 0 <= k < y.len() ==> s[b + k] == y[k]);
    assert(forall|k: int| 0 <= k < kw.len() ==> s[a + k] == kw[k]);
    assert(s[a - 1] == ' ');
    assert(s[b - 1] == ' ');
    assert forall|k: int| b <= k < i implies !is_space(#[trigger] s[k]) by {
        assert(s[k] == y[k - b]);
    }
    lemma_word_start(s, b, i);
    assert(s[b - 2] == kw[kw.len() - 1]);
    assert(!is_space(s[b - 2]));
    assert(skip_back(s, b - 1) == b - 1);
    assert(is_space(s[b - 1]));
    assert(skip_back(s, b) == b - 1);
    assert forall|k: int| a <= k < b - 1 implies !is_space(#[trigger] s[k]) by {
        assert(s[k] == kw[k - a]);
    }
    lemma_word_start(s, a, b - 1);
    assert(word_ending(s, b - 1) =~= kw);
    assert(upper_all(kw) =~= kw);
    assert(in_picture(s, i));
    assert(s[i + 1] == y[m + 1]);
}

/// The sign clause is outside the subset: `SIGN`, `LEADING` or `TRAILING`,
/// with any of `SIGN`, `IS`, `LEADING` and `TRAILING` after it, is refused
/// as `SIGN SEPARATE` when `SEPARATE` follows them, and by its first word
/// otherwise.
pub proof fn lemma_sign_clause_refused(
    w: Seq<char>,
    mid: Seq<Seq<char>>,
    next: Seq<Seq<char>>,
    item: SpecItem,
)
    requires
        w == "SIGN"@ || w == "LEADING"@ || w == "TRAILING"@,
        forall|k: int|
            0 <= k < mid.len() ==> #[trigger] mid[k] == "SIGN"@ || mid[k] == "IS"@ || mid[k]
                == "LEADING"@ || mid[k] == "TRAILING"@,
        next.len() > 0 ==> !(next[0] == "SIGN"@ || next[0] == "IS"@ || next[0] == "LEADING"@
            || next[0] == "TRAILING"@),
    ensures
        next.len() > 0 && next[0] == "SEPARATE"@ ==> read_clauses(
            seq![w] + mid + next,
            0,
            item,
        ) == Err::<SpecItem, Refusal>(Refusal::SignSeparate),
        !(next.len() > 0 && next[0] == "SEPARATE"@) ==> read_clauses(
            seq![w] + mid + next,
            0,
            item,
        ) == Err::<SpecItem, Refusal>(Refusal::Clause { word: w, name: item.name }),
{
    reveal_strlit("SIGN");
    reveal_strlit("LEADING");
    reveal_strlit("TRAILING");
    reveal_strlit("IS");
    reveal_strlit("SEPARATE");
    reveal_strlit("PIC");
    reveal_strlit("PICTURE");
    reveal_strlit("OCCURS");
    reveal_strlit("DEPENDING");
    reveal_strlit("REDEFINES");
    reveal_strlit("VALUE");
    let cl = seq![w] + mid + next;
    assert(cl[0] == w);
    assert(w.len() >= 4 && (w[0] == 'S' || w[0] == 'L' || w[0] == 'T'));
    assert(w != "PIC"@ && w != "PICTURE"@ && w != "OCCURS"@ && w != "DEPENDING"@ && w
        != "REDEFINES"@ && w != "VALUE"@) by {
        if w == "PIC"@ || w == "PICTURE"@ {
            assert(w[0] == 'P');
        }
        if w == "OCCURS"@ {
            assert(w[0] == 'O');
        }
        if w == "DEPENDING"@ {
            assert(w[0] == 'D');
        }
        if w == "REDEFINES"@ {
            assert(w[0] == 'R');
        }
        if w == "VALUE"@ {
            assert(w[0] == 'V');
        }
    }
    if is_binary_usage(w) {
        lemma_usage_letters(w);
    }
    assert(w != "SEPARATE"@) by {
        if w == "SEPARATE"@ {
            assert(w[1] == 'E');
        }
    }
    lemma_sign_words_run(cl, 1, mid.len() as int + 1);
    assert forall|k: int| 1 <= k < mid.len() + 1 implies #[trigger] cl[k] == "SIGN"@ || cl[k]
        == "IS"@ || cl[k] == "LEADING"@ || cl[k] == "TRAILING"@ by {
        assert(cl[k] == mid[k - 1]);
    }
    if next.len() > 0 {
        assert(cl[mid.len() as int + 1] == next[0]);
        assert(next[0] != "SEPARATE"@ ==> !sign_separate(cl, mid.len() as int + 1));
    }
    assert(sign_separate(cl, 0) == sign_separate(cl, 1));
}

proof fn lemma_sign_words_run(cl: Seq<Seq<char>>, i: int, end: int)
    requires
        1 <= i <= end <= cl.len(),
        forall|k: int|
            1 <= k < end ==> #[trigger] cl[k] == "SIGN"@ || cl[k] == "IS"@ || cl[k] == "LEADING"@
                || cl[k] == "TRAILING"@,
    ensures
        sign_separate(cl, i) == sign_separate(cl, end),
    decreases end - i,
{
    reveal_strlit("SIGN");
    reveal_strlit("LEADING");
    reveal_strlit("TRAILING");
    reveal_strlit("IS");
    reveal_strlit("SEPARATE");
    if i < end {
        assert(cl[i] != "SEPARATE"@) by {
            if cl[i] == "SEPARATE"@ {
                assert(cl[i][0] == 'S' && cl[i][1] == 'E');
            }
        }
        lemma_sign_words_run(cl, i + 1, end);
    }
}

/// Blanks among the ASCII characters are the space and the tab, line feed,
/// vertical tab, form feed and carriage return: nothing else.
pub proof fn lemma_ascii_blanks(c: char)
    requires
        (c as u32) < 128,
    ensures
        is_space(c) <==> (c == ' ' || c == '\t' || c == '\n' || c == '\u{b}' || c == '\u{c}' || c
            == '\r'),
{
}

/// A level 88 condition name or a level 66 rename declares nothing: wherever
/// such a statement stands among the statements, the items read are the same.
pub proof fn lemma_condition_names_declare_nothing(s: Seq<Seq<char>>, k: int, st: Seq<char>)
    requires
        0 <= k <= s.len(),
        words(st).len() >= 2,
        parse_unsigned(words(st)[0], 255) == Some(88nat) || parse_unsigned(words(st)[0], 255)
            == Some(66nat),
    ensures
        read_items(s.insert(k, st)) == read_items(s),
    decreases s.len(),
{
    assert(read_item(st) == Ok::<Option<SpecItem>, Refusal>(None));
    let t = s.insert(k, st);
    if k == s.len() {
        assert(t.drop_last() =~= s);
        assert(t.last() == st);
    } else {
        assert(t.drop_last() =~= s.drop_last().insert(k, st));
        assert(t.last() == s.last());
        lemma_condition_names_declare_nothing(s.drop_last(), k, st);
    }
}


// ---------------------------------------------------------------------------
// Records and issues
// ---------------------------------------------------------------------------

/// The pieces `s`, one after the other.
pub open spec fn joined(s: Seq<Seq<char>>) -> Seq<char>
    decreases s.len(),
{
    if s.len() == 0 {
        Seq::<char>::empty()
    } else {
        s[0] + joined(s.drop_first())
    }
}

/// A text without line breaks is cut into consecutive slices of the record
/// length: joined they give the text back, each is as long as a record but
/// the last, which is no longer and not empty.
pub proof fn lemma_slices_partition(text: Seq<char>, length: nat)
    requires
        length > 0,
    ensures
        joined(slices(text, length)) == text,
        forall|k: int|
            0 <= k < slices(text, length).len() - 1 ==> (#[trigger] slices(text, length)[k]).len()
                == length,
        slices(text, length).len() > 0 ==> 0 < slices(text, length).last().len() <= length,
    decreases text.len(),
{
    if text.len() > 0 {
        let s = slices(text, length);
        if length >= text.len() {
            assert(text.take(text.len() as int) =~= text);
            assert(s =~= seq![text]);
            assert(s.drop_first() =~= Seq::<Seq<char>>::empty());
            assert(joined(s.drop_first()) == Seq::<char>::empty());
            assert(joined(s) == s[0] + joined(s.drop_first()));
            assert(text + Seq::<char>::empty() =~= text);
        } else {
            let first = text.take(length as int);
            let rest = text.skip(length as int);
            lemma_slices_partition(rest, length);
            assert(s == seq![first] + slices(rest, length));
            assert(s.drop_first() =~= slices(rest, length));
            assert(s[0] == first);
            assert(joined(s) == s[0] + joined(s.drop_first()));
            assert(first + rest =~= text);
            assert forall|k: int| 0 <= k < s.len() - 1 implies (#[trigger] s[k]).len() == length by {
                if k > 0 {
                    assert(s[k] == slices(rest, length)[k - 1]);
                }
            }
            assert(s.last() == slices(rest, length).last());
        }
    }
}

proof fn lemma_non_empty_all(p: Seq<Seq<char>>)
    ensures
        forall|k: int| 0 <= k < non_empty(p).len() ==> (#[trigger] non_empty(p)[k]).len() > 0,
    decreases p.len(),
{
    if p.len() > 0 {
        lemma_non_empty_all(p.drop_last());
        let q = non_empty(p.drop_last());
        if p.last().len() > 0 {
            assert forall|k: int| 0 <= k < non_empty(p).len() implies (#[trigger] non_empty(
                p,
            )[k]).len() > 0 by {
                if k < q.len() {
                    assert(non_empty(p)[k] == q[k]);
                }
            }
        }
    }
}

/// No piece a text is split into at `c` holds a `c`.
proof fn lemma_pieces_lack(s: Seq<char>, c: char)
    ensures
        forall|k: int|
            0 <= k < pieces(s, Separator::Char(c)).len() ==> !(#[trigger] pieces(
                s,
                Separator::Char(c),
            )[k]).contains(c),
    decreases s.len(),
{
    if s.len() > 0 {
        let sep = Separator::Char(c);
        lemma_pieces_lack(s.drop_last(), c);
        lemma_pieces_nonempty(s.drop_last(), sep);
        let p = pieces(s.drop_last(), sep);
        let q = pieces(s, sep);
        if !separates(sep, s.last()) {
            let last = p.last().push(s.last());
            assert(!p[p.len() - 1].contains(c));
            assert forall|i: int| 0 <= i < last.len() implies last[i] != c by {
                if i < p.last().len() {
                    assert(last[i] == p.last()[i]);
                }
            }
            assert forall|k: int| 0 <= k < q.len() implies !(#[trigger] q[k]).contains(c) by {
                if k < p.len() - 1 {
                    assert(q[k] == p[k]);
                } else {
                    assert(q[k] == last);
                }
            }
        } else {
            assert forall|k: int| 0 <= k < q.len() implies !(#[trigger] q[k]).contains(c) by {
                if k < p.len() {
                    assert(q[k] == p[k]);
                } else {
                    assert(q[k] == Seq::<char>::empty());
                }
            }
        }
    }
}

proof fn lemma_strip_cr_lacks(l: Seq<char>, c: char)
    requires
        !l.contains(c),
    ensures
        !strip_cr(l).contains(c),
{
    let r = strip_cr(l);
    assert forall|i: int| 0 <= i < r.len() implies r[i] != c by {
        assert(r[i] == l[i]);
    }
}

proof fn lemma_non_empty_lacks(p: Seq<Seq<char>>, c: char)
    requires
        forall|k: int| 0 <= k < p.len() ==> !(#[trigger] p[k]).contains(c),
    ensures
        forall|k: int| 0 <= k < non_empty(p).len() ==> !(#[trigger] non_empty(p)[k]).contains(c),
    decreases p.len(),
{
    if p.len() > 0 {
        let init = p.drop_last();
        assert forall|k: int| 0 <= k < init.len() implies !(#[trigger] init[k]).contains(c) by {
            assert(init[k] == p[k]);
        }
        lemma_non_empty_lacks(init, c);
        let q = non_empty(init);
        if p.last().len() > 0 {
            assert(!p[p.len() - 1].contains(c));
            assert forall|k: int| 0 <= k < non_empty(p).len() implies !(#[trigger] non_empty(
                p,
            )[k]).contains(c) by {
                if k < q.len() {
                    assert(non_empty(p)[k] == q[k]);
                } else {
                    assert(non_empty(p)[k] == p.last());
                }
            }
        }
    }
}

/// A text with line breaks is cut into its lines: no record is empty, and
/// none holds a line break.
pub proof fn lemma_line_records_are_lines(text: Seq<char>, length: nat)
    requires
        text.contains('\n'),
    ensures
        forall|k: int|
            0 <= k < records(text, length).len() ==> (#[trigger] records(text, length)[k]).len()
                > 0 && !records(text, length)[k].contains('\n'),
{
    let sep = Separator::Char('\n');
    let p = pieces(text, sep);
    lemma_pieces_lack(text, '\n');
    lemma_pieces_nonempty(text, sep);
    let ended = p.drop_last().map_values(|l: Seq<char>| strip_cr(l));
    let ls = lines(text);
    assert forall|k: int| 0 <= k < ls.len() implies !(#[trigger] ls[k]).contains('\n') by {
        if k < ended.len() {
            assert(ls[k] == strip_cr(p[k]));
            lemma_strip_cr_lacks(p[k], '\n');
        } else {
            assert(ls[k] == p.last());
        }
    }
    let stripped = ls.map_values(|l: Seq<char>| strip_cr(l));
    assert forall|k: int| 0 <= k < stripped.len() implies !(#[trigger] stripped[k]).contains('\n') by {
        lemma_strip_cr_lacks(ls[k], '\n');
    }
    lemma_non_empty_lacks(stripped, '\n');
    lemma_non_empty_all(stripped);
}

/// `t` with every line break written as `br`.
pub open spec fn with_breaks(t: Seq<char>, br: Seq<char>) -> Seq<char>
    decreases t.len(),
{
    if t.len() == 0 {
        Seq::<char>::empty()
    } else {
        with_breaks(t.drop_last(), br) + if t.last() == '\n' {
            br
        } else {
            seq![t.last()]
        }
    }
}

proof fn lemma_with_breaks_keeps_breaks(t: Seq<char>, br: Seq<char>)
    requires
        t.contains('\n'),
        br.len() > 0,
        br.last() == '\n',
    ensures
        with_breaks(t, br).contains('\n'),
    decreases t.len(),
{
    let w = with_breaks(t, br);
    if t.last() == '\n' {
        assert(w[w.len() - 1] == '\n');
    } else {
        let u = t.drop_last();
        let k = choose|k: int| 0 <= k < t.len() && t[k] == '\n';
        assert(u[k] == '\n');
        lemma_with_breaks_keeps_breaks(u, br);
        let v = with_breaks(u, br);
        let m = choose|m: int| 0 <= m < v.len() && v[m] == '\n';
        assert(w[m] == v[m]);
    }
}

/// No piece of `s` holds `x` when `s` does not.
proof fn lemma_pieces_lack_other(s: Seq<char>, sep: Separator, x: char)
    requires
        !s.contains(x),
    ensures
        forall|k: int| 0 <= k < pieces(s, sep).len() ==> !(#[trigger] pieces(s, sep)[k]).contains(x),
    decreases s.len(),
{
    if s.len() > 0 {
        let u = s.drop_last();
        assert(!u.contains(x)) by {
            if u.contains(x) {
                let i = choose|i: int| 0 <= i < u.len() && u[i] == x;
                assert(s[i] == x);
            }
        }
        lemma_pieces_lack_other(u, sep, x);
        lemma_pieces_nonempty(u, sep);
        let p = pieces(u, sep);
        let q = pieces(s, sep);
        assert(s[s.len() - 1] != x);
        if !separates(sep, s.last()) {
            let last = p.last().push(s.last());
            assert(!p[p.len() - 1].contains(x));
            assert forall|i: int| 0 <= i < last.len() implies last[i] != x by {
                if i < p.last().len() {
                    assert(last[i] == p.last()[i]);
                }
            }
            assert forall|k: int| 0 <= k < q.len() implies !(#[trigger] q[k]).contains(x) by {
                if k < p.len() - 1 {
                    assert(q[k] == p[k]);
                } else {
                    assert(q[k] == last);
                }
            }
        } else {
            assert forall|k: int| 0 <= k < q.len() implies !(#[trigger] q[k]).contains(x) by {
                if k < p.len() {
                    assert(q[k] == p[k]);
                } else {
                    assert(q[k] == Seq::<char>::empty());
                }
            }
        }
    }
}

/// The pieces `p` with a carriage return after each but the last.
pub open spec fn returned(p: Seq<Seq<char>>) -> Seq<Seq<char>> {
    Seq::new(
        p.len(),
        |k: int|
            if k < p.len() - 1 {
                p[k].push('\r')
            } else {
                p[k]
            },
    )
}

/// The pieces `p` with an empty piece between each two.
pub open spec fn spaced(p: Seq<Seq<char>>) -> Seq<Seq<char>>
    decreases p.len(),
{
    if p.len() <= 1 {
        p
    } else {
        spaced(p.drop_last()).push(Seq::<char>::empty()).push(p.last())
    }
}

proof fn lemma_spaced_last(p: Seq<Seq<char>>, x: Seq<char>)
    requires
        p.len() >= 1,
    ensures
        spaced(p).len() >= 1,
        spaced(p).last() == p.last(),
        spaced(p.update(p.len() - 1, x)) == spaced(p).update(spaced(p).len() - 1, x),
    decreases p.len(),
{
    let p2 = p.update(p.len() - 1, x);
    if p.len() == 1 {
    } else {
        assert(p2.drop_last() =~= p.drop_last());
        lemma_spaced_last(p.drop_last(), x);
        assert(spaced(p2) =~= spaced(p).update(spaced(p).len() - 1, x));
    }
}

proof fn lemma_spaced_lacks(p: Seq<Seq<char>>, x: char)
    requires
        forall|k: int| 0 <= k < p.len() ==> !(#[trigger] p[k]).contains(x),
    ensures
        forall|k: int| 0 <= k < spaced(p).len() ==> !(#[trigger] spaced(p)[k]).contains(x),
    decreases p.len(),
{
    if p.len() > 1 {
        let init = p.drop_last();
        assert forall|k: int| 0 <= k < init.len() implies !(#[trigger] init[k]).contains(x) by {
            assert(init[k] == p[k]);
        }
        lemma_spaced_lacks(init, x);
        let a = spaced(init);
        let g = spaced(p);
        assert(!p[p.len() - 1].contains(x));
        assert forall|k: int| 0 <= k < g.len() implies !(#[trigger] g[k]).contains(x) by {
            if k < a.len() {
                assert(g[k] == a[k]);
            } else if k == a.len() {
                assert(g[k] == Seq::<char>::empty());
            } else {
                assert(g[k] == p.last());
            }
        }
    }
}

proof fn lemma_spaced_non_empty(p: Seq<Seq<char>>)
    ensures
        non_empty(spaced(p)) == non_empty(p),
    decreases p.len(),
{
    if p.len() > 1 {
        lemma_spaced_non_empty(p.drop_last());
        let a = spaced(p.drop_last());
        let e = Seq::<char>::empty();
        let g = spaced(p);
        assert(g == a.push(e).push(p.last()));
        assert(g.drop_last() =~= a.push(e));
        assert(g.last() == p.last());
        assert(a.push(e).drop_last() =~= a);
        assert(a.push(e).last() == e);
        assert(non_empty(a.push(e)) == non_empty(a));
        assert(non_empty(g.drop_last()) == non_empty(a));
    }
}

proof fn lemma_pieces_returned(t: Seq<char>)
    ensures
        pieces(with_breaks(t, "\r\n"@), Separator::Char('\n')) == returned(
            pieces(t, Separator::Char('\n')),
        ),
    decreases t.len(),
{
    reveal_strlit("\r\n");
    let sep = Separator::Char('\n');
    if t.len() == 0 {
        assert(returned(pieces(t, sep)) =~= pieces(t, sep));
    } else {
        let u = t.drop_last();
        let c = t.last();
        lemma_pieces_returned(u);
        lemma_pieces_nonempty(u, sep);
        let wu = with_breaks(u, "\r\n"@);
        let pu = pieces(u, sep);
        if c == '\n' {
            let w = wu + "\r\n"@;
            let x = wu.push('\r');
            let e = Seq::<char>::empty();
            assert(w.drop_last() =~= x);
            assert(x.drop_last() =~= wu);
            assert(w.last() == '\n');
            assert(x.last() == '\r');
            let pw = pieces(wu, sep);
            assert(pieces(x, sep) == pw.update(pw.len() - 1, pw.last().push('\r')));
            assert(pieces(w, sep) == pieces(x, sep).push(e));
            assert(pieces(t, sep) == pu.push(e));
            let r = returned(pu.push(e));
            assert(pw == returned(pu));
            assert forall|k: int| 0 <= k < r.len() implies #[trigger] r[k] == pieces(w, sep)[k] by {
                if k < pu.len() - 1 {
                    assert(r[k] == pu[k].push('\r'));
                    assert(pw[k] == pu[k].push('\r'));
                } else if k == pu.len() - 1 {
                    assert(r[k] == pu[k].push('\r'));
                    assert(pw[k] == pu[k]);
                }
            }
            assert(pieces(w, sep) =~= r);
        } else {
            let w = wu + seq![c];
            assert(w.drop_last() =~= wu);
            assert(w.last() == c);
            assert(pieces(w, sep) =~= returned(pieces(t, sep)));
        }
    }
}

proof fn lemma_pieces_spaced(t: Seq<char>)
    ensures
        pieces(with_breaks(t, "\n\n"@), Separator::Char('\n')) == spaced(
            pieces(t, Separator::Char('\n')),
        ),
    decreases t.len(),
{
    reveal_strlit("\n\n");
    let sep = Separator::Char('\n');
    if t.len() > 0 {
        let u = t.drop_last();
        let c = t.last();
        lemma_pieces_spaced(u);
        lemma_pieces_nonempty(u, sep);
        let wu = with_breaks(u, "\n\n"@);
        let pu = pieces(u, sep);
        if c == '\n' {
            let w = wu + "\n\n"@;
            let x = wu.push('\n');
            let e = Seq::<char>::empty();
            assert(w.drop_last() =~= x);
            assert(x.drop_last() =~= wu);
            assert(w.last() == '\n');
            assert(x.last() == '\n');
            assert(pieces(x, sep) == pieces(wu, sep).push(e));
            assert(pieces(w, sep) == pieces(x, sep).push(e));
            let pt = pu.push(e);
            assert(pt.drop_last() =~= pu);
            assert(pt.last() == e);
            assert(spaced(pt) == spaced(pu).push(e).push(e));
            assert(pieces(w, sep) =~= spaced(pt));
        } else {
            let w = wu + seq![c];
            assert(w.drop_last() =~= wu);
            assert(w.last() == c);
            lemma_spaced_last(pu, pu.last().push(c));
        }
    }
}

/// When no piece ends with a carriage return, the records cut from pieces
/// at line breaks are the pieces that are not empty.
proof fn lemma_line_pieces(p: Seq<Seq<char>>)
    requires
        p.len() >= 1,
        forall|k: int| 0 <= k < p.len() ==> !(#[trigger] p[k]).contains('\r'),
    ensures
        ({
            let ended = p.drop_last().map_values(|l: Seq<char>| strip_cr(l));
            let ls = if p.last().len() == 0 {
                ended
            } else {
                ended.push(p.last())
            };
            non_empty(ls.map_values(|l: Seq<char>| strip_cr(l))) == non_empty(p)
        }),
{
    assert forall|k: int| 0 <= k < p.len() implies strip_cr(#[trigger] p[k]) == p[k] by {
        if p[k].len() > 0 && p[k].last() == '\r' {
            assert(p[k][p[k].len() - 1] == '\r');
        }
    }
    let ended = p.drop_last().map_values(|l: Seq<char>| strip_cr(l));
    assert(ended =~= p.drop_last());
    if p.last().len() == 0 {
        assert(ended.map_values(|l: Seq<char>| strip_cr(l)) =~= p.drop_last());
    } else {
        assert(ended.push(p.last()).map_values(|l: Seq<char>| strip_cr(l)) =~= p);
    }
}

proof fn lemma_records_break_style(text: Seq<char>, length: nat)
    requires
        text.contains('\n'),
        !text.contains('\r'),
    ensures
        records(with_breaks(text, "\r\n"@), length) == records(text, length),
        records(with_breaks(text, "\n\n"@), length) == records(text, length),
{
    reveal_strlit("\r\n");
    reveal_strlit("\n\n");
    let sep = Separator::Char('\n');
    let p = pieces(text, sep);
    lemma_pieces_nonempty(text, sep);
    lemma_pieces_lack_other(text, sep, '\r');
    lemma_line_pieces(p);
    lemma_with_breaks_keeps_breaks(text, "\r\n"@);
    lemma_with_breaks_keeps_breaks(text, "\n\n"@);
    // Written with `\r\n`: every piece but the last gains a carriage return,
    // which the lines lose again.
    lemma_pieces_returned(text);
    let r = returned(p);
    assert(r.drop_last().map_values(|l: Seq<char>| strip_cr(l)) =~= p.drop_last().map_values(
        |l: Seq<char>| strip_cr(l),
    )) by {
        assert forall|k: int| 0 <= k < p.len() - 1 implies strip_cr(#[trigger] r[k]) == strip_cr(
            p[k],
        ) by {
            assert(r[k] == p[k].push('\r'));
            assert(r[k].drop_last() =~= p[k]);
            if p[k].len() > 0 && p[k].last() == '\r' {
                assert(p[k][p[k].len() - 1] == '\r');
            }
        }
    }
    assert(lines(with_breaks(text, "\r\n"@)) == lines(text));
    // Doubled: an empty piece stands between each two, and empty records
    // are dropped.
    lemma_pieces_spaced(text);
    lemma_spaced_last(p, p.last());
    lemma_spaced_lacks(p, '\r');
    lemma_line_pieces(spaced(p));
    lemma_spaced_non_empty(p);
    assert(records(with_breaks(text, "\r\n"@), length) == records(text, length));
    assert(records(with_breaks(text, "\n\n"@), length) == records(text, length));
}

/// Records do not depend on how line breaks are written: writing each as
/// `\r\n`, or doubling each, gives the same records, numbered alike, and so
/// the same issues under any contract.
pub proof fn lemma_records_ignore_break_style(
    text: Seq<char>,
    length: nat,
    layout: Option<SpecLayout>,
)
    requires
        text.contains('\n'),
        !text.contains('\r'),
    ensures
        records(with_breaks(text, "\r\n"@), length) == records(text, length),
        records(with_breaks(text, "\n\n"@), length) == records(text, length),
        conformance(layout, with_breaks(text, "\r\n"@)) == conformance(layout, text),
        conformance(layout, with_breaks(text, "\n\n"@)) == conformance(layout, text),
{
    match layout {
        Some(l) => {
            lemma_records_break_style(text, l.record_length);
        },
        None => {},
    }
    lemma_records_break_style(text, length);
}

/// A bare contract finds nothing wrong with any text.
pub proof fn lemma_bare_contract_holds_text_only(text: Seq<char>)
    ensures
        conformance(None, text) == Seq::<SpecIssue>::empty(),
{
}

/// A record conforms to a layout when it has the layout's length and no
/// field value departs from its picture.
pub open spec fn record_conforms(layout: SpecLayout, record: Seq<char>) -> bool {
    &&& record.len() == layout.record_length
    &&& forall|i: int|
        0 <= i < layout.fields.len() ==> departure(
            #[trigger] layout.fields[i],
            record.subrange(
                layout.fields[i].offset as int,
                (layout.fields[i].offset + layout.fields[i].length) as int,
            ),
        ) is None
}

proof fn lemma_field_issues_none(fields: Seq<SpecField>, record: Seq<char>, at: Seq<char>)
    ensures
        field_issues(fields, record, at).len() == 0 <==> forall|i: int|
            0 <= i < fields.len() ==> departure(
                #[trigger] fields[i],
                record.subrange(fields[i].offset as int, (fields[i].offset + fields[i].length) as int),
            ) is None,
    decreases fields.len(),
{
    if fields.len() > 0 {
        let init = fields.drop_last();
        lemma_field_issues_none(init, record, at);
        assert forall|i: int| 0 <= i < init.len() implies init[i] == fields[i] by {}
        let f = fields.last();
        if field_issues(fields, record, at).len() == 0 {
            assert(departure(f, record.subrange(f.offset as int, (f.offset + f.length) as int))
                is None);
            assert forall|i: int| 0 <= i < fields.len() implies departure(
                #[trigger] fields[i],
                record.subrange(fields[i].offset as int, (fields[i].offset + fields[i].length) as int),
            ) is None by {
                if i < init.len() {
                    assert(init[i] == fields[i]);
                }
            }
        }
        if forall|i: int|
            0 <= i < fields.len() ==> departure(
                #[trigger] fields[i],
                record.subrange(fields[i].offset as int, (fields[i].offset + fields[i].length) as int),
            ) is None {
            assert(departure(
                fields[fields.len() - 1],
                record.subrange(
                    fields[fields.len() - 1].offset as int,
                    (fields[fields.len() - 1].offset + fields[fields.len() - 1].length) as int,
                ),
            ) is None);
            assert forall|i: int| 0 <= i < init.len() implies departure(
                #[trigger] init[i],
                record.subrange(init[i].offset as int, (init[i].offset + init[i].length) as int),
            ) is None by {
                assert(init[i] == fields[i]);
            }
        }
    }
}

proof fn lemma_records_issues_none(layout: SpecLayout, recs: Seq<Seq<char>>)
    ensures
        records_issues(layout, recs).len() == 0 <==> forall|k: int|
            0 <= k < recs.len() ==> record_conforms(layout, #[trigger] recs[k]),
    decreases recs.len(),
{
    if recs.len() > 0 {
        let init = recs.drop_last();
        let last = recs.last();
        lemma_records_issues_none(layout, init);
        lemma_field_issues_none(layout.fields, last, record_path(recs.len()));
        assert(record_issues(layout, last, recs.len()).len() == 0 <==> record_conforms(
            layout,
            last,
        )) by {
            if last.len() == layout.record_length {
                lemma_field_issues_none(layout.fields, last, record_path(recs.len()));
            }
        }
        if forall|k: int| 0 <= k < recs.len() ==> record_conforms(layout, #[trigger] recs[k]) {
            assert(record_conforms(layout, recs[recs.len() - 1]));
            assert forall|k: int| 0 <= k < init.len() implies record_conforms(
                layout,
                #[trigger] init[k],
            ) by {
                assert(init[k] == recs[k]);
            }
        }
        if records_issues(layout, recs).len() == 0 {
            assert forall|k: int| 0 <= k < recs.len() implies record_conforms(
                layout,
                #[trigger] recs[k],
            ) by {
                if k < init.len() {
                    assert(init[k] == recs[k]);
                }
            }
        }
    }
}

/// Text held to a bound layout is valid exactly when every record conforms:
/// it has the layout's length, and no field value departs from its picture.
pub proof fn lemma_valid_iff_every_record_conforms(layout: SpecLayout, text: Seq<char>)
    ensures
        conformance(Some(layout), text).len() == 0 <==> forall|k: int|
            0 <= k < records(text, layout.record_length).len() ==> record_conforms(
                layout,
                #[trigger] records(text, layout.record_length)[k],
            ),
{
    lemma_records_issues_none(layout, records(text, layout.record_length));
}

/// What an issue about the `ordinal`-th record of `layout` says: a `length`
/// issue names the record, a `value` issue names the record and a field.
pub open spec fn names_record_and_field(layout: SpecLayout, issue: SpecIssue, ordinal: nat) -> bool {
    ||| issue.code == "length"@ && issue.path == Some(record_path(ordinal))
    ||| issue.code == "value"@ && exists|i: int|
        0 <= i < layout.fields.len() && issue.path == Some(
            record_path(ordinal) + " / "@ + (#[trigger] layout.fields[i]).name,
        )
}

/// An issue about the record at index `k`, numbered `k + 1`.
pub open spec fn issue_about(layout: SpecLayout, issue: SpecIssue, k: int) -> bool {
    names_record_and_field(layout, issue, (k + 1) as nat)
}

proof fn lemma_field_issues_named(
    layout: SpecLayout,
    fields: Seq<SpecField>,
    record: Seq<char>,
    ordinal: nat,
)
    requires
        fields.len() <= layout.fields.len(),
        forall|i: int| 0 <= i < fields.len() ==> fields[i] == layout.fields[i],
    ensures
        forall|j: int|
            0 <= j < field_issues(fields, record, record_path(ordinal)).len()
                ==> names_record_and_field(
                layout,
                #[trigger] field_issues(fields, record, record_path(ordinal))[j],
                ordinal,
            ),
    decreases fields.len(),
{
    if fields.len() > 0 {
        let init = fields.drop_last();
        lemma_field_issues_named(layout, init, record, ordinal);
        let all = field_issues(fields, record, record_path(ordinal));
        let earlier = field_issues(init, record, record_path(ordinal));
        assert forall|j: int| 0 <= j < all.len() implies names_record_and_field(
            layout,
            #[trigger] all[j],
            ordinal,
        ) by {
            if j < earlier.len() {
                assert(all[j] == earlier[j]);
            } else {
                let k = fields.len() - 1;
                assert(layout.fields[k] == fields.last());
                assert(all[j].path == Some(record_path(ordinal) + " / "@ + layout.fields[k].name));
            }
        }
    }
}

/// An issue about one of the first `n` records.
pub open spec fn about_some_record(layout: SpecLayout, issue: SpecIssue, n: int) -> bool {
    exists|k: int| 0 <= k && k < n && #[trigger] issue_about(layout, issue, k)
}

proof fn lemma_records_issues_named(layout: SpecLayout, recs: Seq<Seq<char>>)
    ensures
        forall|j: int|
            0 <= j < records_issues(layout, recs).len() ==> about_some_record(
                layout,
                #[trigger] records_issues(layout, recs)[j],
                recs.len() as int,
            ),
    decreases recs.len(),
{
    if recs.len() > 0 {
        let init = recs.drop_last();
        lemma_records_issues_named(layout, init);
        let last = recs.last();
        let n = recs.len();
        lemma_field_issues_named(layout, layout.fields, last, n);
        let all = records_issues(layout, recs);
        let earlier = records_issues(layout, init);
        let mine = record_issues(layout, last, n);
        assert forall|j: int| 0 <= j < all.len() implies about_some_record(
            layout,
            #[trigger] all[j],
            n as int,
        ) by {
            if j < earlier.len() {
                assert(all[j] == earlier[j]);
                assert(about_some_record(layout, earlier[j], init.len() as int));
                let k = choose|k: int|
                    0 <= k && k < init.len() && #[trigger] issue_about(layout, earlier[j], k);
                assert(issue_about(layout, all[j], k));
            } else {
                assert(all[j] == mine[j - earlier.len()]);
                assert(names_record_and_field(layout, mine[j - earlier.len()], n));
                assert(issue_about(layout, all[j], n - 1));
            }
        }
    }
}

/// Every issue of text held to a bound layout names the record it is about,
/// by its number from 1, and, for a value, the field that departs.
pub proof fn lemma_issues_name_record_and_field(layout: SpecLayout, text: Seq<char>)
    ensures
        forall|j: int|
            0 <= j < conformance(Some(layout), text).len() ==> about_some_record(
                layout,
                #[trigger] conformance(Some(layout), text)[j],
                records(text, layout.record_length).len() as int,
            ),
{
    lemma_records_issues_named(layout, records(text, layout.record_length));
}

} // verus!
