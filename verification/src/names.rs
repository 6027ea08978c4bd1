//! The order of names in an index.

use std::cmp::Ordering;

use vstd::prelude::*;

use crate::upcase::UpcaseTable;

verus! {

/// The upper-case form of a unit: the table's, or without a table that of an
/// ASCII letter.
pub open spec fn fold_unit(table: Option<Seq<u16>>, c: u16) -> u16 {
    match table {
        Some(t) => if c < t.len() {
            t[c as int]
        } else {
            c
        },
        None => if 0x61 <= c <= 0x7A {
            (c - 0x20) as u16
        } else {
            c
        },
    }
}

/// A name in upper case.
pub open spec fn folded(name: Seq<u16>, table: Option<Seq<u16>>) -> Seq<u16> {
    Seq::new(name.len(), |i: int| fold_unit(table, name[i]))
}

/// The table that stands behind an optional reference to one.
pub open spec fn table_view(table: Option<&UpcaseTable>) -> Option<Seq<u16>> {
    match table {
        Some(t) => Some(t@),
        None => None,
    }
}

/// How `a` compares with `b` from unit `i` on: below, at or above zero. The
/// first difference decides; where there is none, the shorter comes first.
pub open spec fn lexical(a: Seq<u16>, b: Seq<u16>, i: int) -> int
    decreases a.len() - i,
{
    if i >= a.len() || i >= b.len() {
        a.len() - b.len()
    } else if a[i] != b[i] {
        a[i] - b[i]
    } else {
        lexical(a, b, i + 1)
    }
}

/// How name `a` compares with `b`: below, at or above zero, by their upper-case
/// forms.
pub open spec fn order(a: Seq<u16>, b: Seq<u16>, table: Option<Seq<u16>>) -> int {
    lexical(folded(a, table), folded(b, table), 0)
}

/// The two names are one in an index.
pub open spec fn same(a: Seq<u16>, b: Seq<u16>, table: Option<Seq<u16>>) -> bool {
    folded(a, table) == folded(b, table)
}

proof fn lemma_lexical_laws(a: Seq<u16>, b: Seq<u16>, i: int)
    requires
        0 <= i,
        i <= a.len(),
        i <= b.len(),
        forall|j: int| 0 <= j < i ==> a[j] == b[j],
    ensures
        lexical(a, b, i) == 0 <==> a == b,
        lexical(a, b, i) == -lexical(b, a, i),
    decreases a.len() - i,
{
    if i < a.len() && i < b.len() {
        if a[i] == b[i] {
            lemma_lexical_laws(a, b, i + 1);
        } else {
            assert(a != b);
        }
    } else if a.len() == b.len() {
        assert(a =~= b);
    }
}

proof fn lemma_lexical_transitive(a: Seq<u16>, b: Seq<u16>, c: Seq<u16>, i: int)
    requires
        0 <= i,
        lexical(a, b, i) <= 0,
        lexical(b, c, i) <= 0,
    ensures
        lexical(a, c, i) <= 0,
        lexical(a, b, i) < 0 || lexical(b, c, i) < 0 ==> lexical(a, c, i) < 0,
    decreases a.len() + b.len() + c.len() - i,
{
    if i < a.len() && i < b.len() && i < c.len() && a[i] == b[i] && b[i] == c[i] {
        lemma_lexical_transitive(a, b, c, i + 1);
    }
}

/// Names compare equal exactly when their upper-case forms are the same, the
/// order turns round with its arguments, and it is transitive: an order of the
/// upper-case forms, in which any two names have their place.
pub proof fn lemma_order_is_total(
    a: Seq<u16>,
    b: Seq<u16>,
    c: Seq<u16>,
    table: Option<Seq<u16>>,
)
    ensures
        order(a, b, table) == 0 <==> same(a, b, table),
        order(a, b, table) == -order(b, a, table),
        order(a, b, table) <= 0 && order(b, c, table) <= 0 ==> order(a, c, table) <= 0,
        order(a, b, table) < 0 && order(b, c, table) <= 0 ==> order(a, c, table) < 0,
        order(a, b, table) <= 0 && order(b, c, table) < 0 ==> order(a, c, table) < 0,
{
    let x = folded(a, table);
    let y = folded(b, table);
    let z = folded(c, table);
    lemma_lexical_laws(x, y, 0);
    if order(a, b, table) <= 0 && order(b, c, table) <= 0 {
        lemma_lexical_transitive(x, y, z, 0);
    }
}

/// Without a table the two forms of an ASCII letter have one upper-case form,
/// which is the upper one, and every other unit is its own. With a table a unit's
/// form is the table's entry at its number, as far as the table goes.
pub proof fn lemma_upper_case(c: u16, t: Seq<u16>)
    ensures
        0x41 <= c <= 0x5A ==> fold_unit(None, c) == c && fold_unit(None, (c + 0x20) as u16) == c,
        !(0x61 <= c <= 0x7A) ==> fold_unit(None, c) == c,
        c < t.len() ==> fold_unit(Some(t), c) == t[c as int],
        c >= t.len() ==> fold_unit(Some(t), c) == c,
{
}

/// A name in upper case is the upper-case forms of its units, one for one.
pub proof fn lemma_folded_units(name: Seq<u16>, table: Option<Seq<u16>>)
    ensures
        folded(name, table).len() == name.len(),
        forall|i: int|
            0 <= i < name.len() ==> #[trigger] folded(name, table)[i] == fold_unit(table, name[i]),
{
}

/// The order of names is that of the numbers of their units: where two names
/// agree in upper case up to unit `i` and differ there, the one whose unit has
/// the smaller number comes first.
pub proof fn lemma_smaller_unit_comes_first(
    a: Seq<u16>,
    b: Seq<u16>,
    table: Option<Seq<u16>>,
    i: int,
)
    requires
        0 <= i < a.len(),
        i < b.len(),
        forall|j: int| 0 <= j < i ==> fold_unit(table, #[trigger] a[j]) == fold_unit(table, b[j]),
        fold_unit(table, a[i]) < fold_unit(table, b[i]),
    ensures
        order(a, b, table) < 0,
        order(b, a, table) > 0,
{
    let x = folded(a, table);
    let y = folded(b, table);
    assert forall|j: int| 0 <= j < i implies #[trigger] x[j] == y[j] by {
        assert(fold_unit(table, a[j]) == fold_unit(table, b[j]));
    }
    lemma_decided_at(x, y, 0, i);
    lemma_lexical_laws(x, y, 0);
}

/// A name comes before every longer one that begins with it in upper case.
pub proof fn lemma_prefix_comes_first(a: Seq<u16>, b: Seq<u16>, table: Option<Seq<u16>>)
    requires
        a.len() < b.len(),
        forall|j: int|
            0 <= j < a.len() ==> fold_unit(table, #[trigger] a[j]) == fold_unit(table, b[j]),
    ensures
        order(a, b, table) < 0,
        order(b, a, table) > 0,
{
    let x = folded(a, table);
    let y = folded(b, table);
    assert forall|j: int| 0 <= j < x.len() implies #[trigger] x[j] == y[j] by {
        assert(fold_unit(table, a[j]) == fold_unit(table, b[j]));
    }
    lemma_decided_by_length(x, y, 0);
    lemma_lexical_laws(x, y, 0);
}

/// The same of names that are not folded: the smaller number at the first
/// difference comes first, and a name before every longer one that begins with
/// it.
pub proof fn lemma_ordinal_order_is_of_numbers(a: Seq<u16>, b: Seq<u16>, i: int)
    requires
        0 <= i <= a.len(),
        i < b.len(),
        forall|j: int| 0 <= j < i ==> #[trigger] a[j] == b[j],
        i == a.len() || a[i] < b[i],
    ensures
        lexical(a, b, 0) < 0,
        lexical(b, a, 0) > 0,
{
    if i == a.len() {
        lemma_decided_by_length(a, b, 0);
    } else {
        lemma_decided_at(a, b, 0, i);
    }
    lemma_lexical_laws(a, b, 0);
}

proof fn lemma_decided_at(a: Seq<u16>, b: Seq<u16>, from: int, i: int)
    requires
        0 <= from <= i < a.len(),
        i < b.len(),
        forall|j: int| from <= j < i ==> #[trigger] a[j] == b[j],
        a[i] < b[i],
    ensures
        lexical(a, b, from) < 0,
    decreases i - from,
{
    if from < i {
        lemma_decided_at(a, b, from + 1, i);
    }
}

proof fn lemma_decided_by_length(a: Seq<u16>, b: Seq<u16>, from: int)
    requires
        0 <= from <= a.len() < b.len(),
        forall|j: int| from <= j < a.len() ==> #[trigger] a[j] == b[j],
    ensures
        lexical(a, b, from) < 0,
    decreases a.len() - from,
{
    if from < a.len() {
        lemma_decided_by_length(a, b, from + 1);
    }
}

/// The upper-case form of `c`.
fn fold(c: u16, table: Option<&UpcaseTable>) -> (u: u16)
    ensures
        u == fold_unit(table_view(table), c),
{
    match table {
        Some(t) => t.fold(c),
        None => if 0x61 <= c && c <= 0x7A {
            c - 0x20
        } else {
            c
        },
    }
}

/// The sign of how `a` compares with `b`, each unit seen through `table` where
/// `folding`.
fn sign_of_difference(a: &[u16], b: &[u16], folding: bool, table: Option<&UpcaseTable>) -> (sign: i8)
    ensures
        ({
            let d = if folding {
                order(a@, b@, table_view(table))
            } else {
                lexical(a@, b@, 0)
            };
            &&& sign < 0 <==> d < 0
            &&& sign == 0 <==> d == 0
        }),
{
    let ghost x = if folding {
        folded(a@, table_view(table))
    } else {
        a@
    };
    let ghost y = if folding {
        folded(b@, table_view(table))
    } else {
        b@
    };
    let mut i: usize = 0;
    while i < a.len() && i < b.len()
        invariant
            i <= a.len(),
            i <= b.len(),
            x.len() == a.len(),
            y.len() == b.len(),
            x == if folding {
                folded(a@, table_view(table))
            } else {
                a@
            },
            y == if folding {
                folded(b@, table_view(table))
            } else {
                b@
            },
            lexical(x, y, i as int) == lexical(x, y, 0),
        decreases a.len() - i,
    {
        let u: u16 = if folding {
            fold(a[i], table)
        } else {
            a[i]
        };
        let v: u16 = if folding {
            fold(b[i], table)
        } else {
            b[i]
        };
        assert(x[i as int] == u);
        assert(y[i as int] == v);
        if u < v {
            return -1;
        }
        if u > v {
            return 1;
        }
        i = i + 1;
    }
    if a.len() < b.len() {
        -1
    } else if a.len() == b.len() {
        0
    } else {
        1
    }
}

/// Compares two names by their upper-case forms, unit by unit and then by
/// length.
pub(crate) fn compare_folded(a: &[u16], b: &[u16], table: Option<&UpcaseTable>) -> (o: Ordering)
    ensures
        match o {
            Ordering::Less => order(a@, b@, table_view(table)) < 0,
            Ordering::Equal => order(a@, b@, table_view(table)) == 0,
            Ordering::Greater => order(a@, b@, table_view(table)) > 0,
        },
{
    let sign: i8 = sign_of_difference(a, b, true, table);
    if sign < 0 {
        Ordering::Less
    } else if sign == 0 {
        Ordering::Equal
    } else {
        Ordering::Greater
    }
}

/// Compares two UTF-16 names in the order of an index: by the table, or
/// without one by the upper-case forms of ASCII letters.
pub fn compare_names(a: &[u16], b: &[u16], upcase: Option<&UpcaseTable>) -> (o: Ordering)
    ensures
        match o {
            Ordering::Less => order(a@, b@, table_view(upcase)) < 0,
            Ordering::Equal => order(a@, b@, table_view(upcase)) == 0,
            Ordering::Greater => order(a@, b@, table_view(upcase)) > 0,
        },
{
    match upcase {
        Some(t) => t.cmp_names(a, b),
        None => compare_folded(a, b, None),
    }
}

/// Compares two UTF-16 names unit by unit and then by length, with no folding:
/// the order of a directory that tells upper case from lower.
pub fn compare_names_ordinal(a: &[u16], b: &[u16]) -> (o: Ordering)
    ensures
        match o {
            Ordering::Less => lexical(a@, b@, 0) < 0,
            Ordering::Equal => lexical(a@, b@, 0) == 0,
            Ordering::Greater => lexical(a@, b@, 0) > 0,
        },
{
    let sign: i8 = sign_of_difference(a, b, false, None);
    if sign < 0 {
        Ordering::Less
    } else if sign == 0 {
        Ordering::Equal
    } else {
        Ordering::Greater
    }
}

/// Without folding, only equal names compare equal, and the order turns round
/// with its arguments and is transitive.
pub proof fn lemma_ordinal_order_is_total(a: Seq<u16>, b: Seq<u16>, c: Seq<u16>)
    ensures
        lexical(a, b, 0) == 0 <==> a == b,
        lexical(a, b, 0) == -lexical(b, a, 0),
        lexical(a, b, 0) <= 0 && lexical(b, c, 0) <= 0 ==> lexical(a, c, 0) <= 0,
{
    lemma_lexical_laws(a, b, 0);
    if lexical(a, b, 0) <= 0 && lexical(b, c, 0) <= 0 {
        lemma_lexical_transitive(a, b, c, 0);
    }
}

/// Whether the two names are one in an index.
pub(crate) fn names_match(a: &[u16], b: &[u16], upcase: Option<&UpcaseTable>) -> (yes: bool)
    ensures
        yes == same(a@, b@, table_view(upcase)),
{
    proof {
        lemma_order_is_total(a@, b@, b@, table_view(upcase));
    }
    match compare_names(a, b, upcase) {
        Ordering::Equal => true,
        _ => false,
    }
}

/// Whether `a` comes behind `b` in an index.
pub(crate) fn comes_behind(a: &[u16], b: &[u16], upcase: Option<&UpcaseTable>) -> (yes: bool)
    ensures
        yes == (order(a@, b@, table_view(upcase)) > 0),
{
    match compare_names(a, b, upcase) {
        Ordering::Greater => true,
        _ => false,
    }
}

} // verus!
