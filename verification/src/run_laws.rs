//! What run lists mean, entry by entry.

use vstd::prelude::*;

use crate::chunks;
use crate::data_runs;
use crate::data_runs::DataRun;
use crate::text;

verus! {

/// The two fields of an entry of a run list, as they stand in it.
pub struct RunFields {
    pub length: Seq<u8>,
    pub distance: Seq<u8>,
}

/// The bytes of the entries: for each the sizes of its fields, four bits for
/// each, and then the fields.
pub open spec fn laid(list: Seq<RunFields>) -> Seq<u8>
    decreases list.len(),
{
    if list.len() == 0 {
        Seq::empty()
    } else {
        seq![(16 * list[0].distance.len() + list[0].length.len()) as u8] + list[0].length
            + list[0].distance + laid(list.skip(1))
    }
}

/// The distance that an entry names. A hole names none.
pub open spec fn distance_of(e: RunFields) -> int {
    if e.distance.len() == 0 {
        0
    } else {
        data_runs::signed(data_runs::uint_of(e.distance) as int, e.distance.len())
    }
}

/// The sum of the distances of the first `k` entries.
pub open spec fn distance_sum(list: Seq<RunFields>, k: int) -> int
    decreases k,
{
    if k <= 0 {
        0
    } else {
        distance_sum(list, k - 1) + distance_of(list[k - 1])
    }
}

/// The sum of the lengths of the first `k` entries.
pub open spec fn length_sum(list: Seq<RunFields>, k: int) -> int
    decreases k,
{
    if k <= 0 {
        0
    } else {
        length_sum(list, k - 1) + data_runs::uint_of(list[k - 1].length)
    }
}

/// Entry `k` names a run: it has a length, and its address, where it has one, is
/// not negative and fits 63 bits.
pub open spec fn names_run(list: Seq<RunFields>, k: int) -> bool {
    &&& 1 <= list[k].length.len() <= 8
    &&& list[k].distance.len() <= 8
    &&& data_runs::uint_of(list[k].length) > 0
    &&& length_sum(list, k + 1) <= u64::MAX
    &&& list[k].distance.len() > 0 ==> 0 <= distance_sum(list, k + 1) <= i64::MAX
}

/// The run that entry `k` names.
pub open spec fn run_named(list: Seq<RunFields>, k: int) -> DataRun {
    DataRun {
        starting_vcn: length_sum(list, k) as u64,
        length: data_runs::uint_of(list[k].length) as u64,
        lcn: if list[k].distance.len() == 0 {
            None
        } else {
            Some(distance_sum(list, k + 1) as u64)
        },
    }
}

/// The bytes of a field count from the first on, each 256 times as much as the one
/// before it, and the highest bit of a distance is its sign.
pub proof fn lemma_fields_are_numbers(x: u8, rest: Seq<u8>, u: int, n: nat)
    requires
        0 <= u < data_runs::pow256(n),
    ensures
        data_runs::uint_of(Seq::empty()) == 0,
        data_runs::uint_of(seq![x] + rest) == x + 256 * data_runs::uint_of(rest),
        data_runs::pow256(0) == 1,
        data_runs::pow256(n + 1) == 256 * data_runs::pow256(n),
        data_runs::signed(u, n) == u || data_runs::signed(u, n) == u - data_runs::pow256(n),
        -data_runs::pow256(n) <= 2 * data_runs::signed(u, n) < data_runs::pow256(n),
{
    assert((seq![x] + rest).skip(1) =~= rest);
}

/// To extend the sign of a field is to read the field as a signed number.
pub proof fn lemma_sign_is_extended(raw: i64, n: nat)
    requires
        1 <= n < 8,
        0 <= raw < data_runs::pow256(n),
    ensures
        data_runs::sign_extended(raw as int, n) == data_runs::signed(raw as int, n),
{
    vstd::arithmetic::div_mod::lemma_small_mod(raw as nat, data_runs::pow256(n));
}

/// The runs of a run list are those that its entries name, one for one: each
/// begins where the one before it ends, and its address is the sum of the
/// distances up to and with its own, to which a hole adds nothing.
pub proof fn lemma_addresses_are_sums(list: Seq<RunFields>, tail: Seq<u8>)
    requires
        forall|k: int| 0 <= k < list.len() ==> #[trigger] names_run(list, k),
        tail.len() == 0 || tail[0] == 0,
    ensures
        ({
            let runs = data_runs::decoded(laid(list) + tail);
            &&& runs is Ok
            &&& runs->Ok_0.len() == list.len()
            &&& forall|k: int|
                0 <= k < list.len() ==> #[trigger] runs->Ok_0[k] == run_named(list, k)
        }),
{
    let b = laid(list) + tail;
    assert(list.skip(0) =~= list);
    assert(b.skip(0) =~= laid(list.skip(0)) + tail);
    lemma_sums_from(list, tail, b, 0, 0);
    assert(Seq::new(list.len(), |k: int| run_named(list, k)).skip(0) =~= Seq::new(
        list.len(),
        |k: int| run_named(list, k),
    ));
}

proof fn lemma_first_entry(list: Seq<RunFields>, tail: Seq<u8>, b: Seq<u8>, p: int, i: int)
    requires
        0 <= i < list.len(),
        0 <= p <= b.len(),
        b.skip(p) == laid(list.skip(i)) + tail,
        names_run(list, i),
    ensures
        ({
            let e = list[i];
            let n = e.length.len() as int;
            let m = e.distance.len() as int;
            &&& p < b.len()
            &&& b[p] != 0
            &&& data_runs::field_sizes(b[p]) == (n, m)
            &&& p + 1 + n + m <= b.len()
            &&& b.subrange(p + 1, p + 1 + n) == e.length
            &&& b.subrange(p + 1 + n, p + 1 + n + m) == e.distance
            &&& b.skip(p + 1 + n + m) == laid(list.skip(i + 1)) + tail
        }),
{
    let e = list[i];
    let n = e.length.len() as int;
    let m = e.distance.len() as int;
    let head = (16 * m + n) as u8;
    let rest = laid(list.skip(i + 1)) + tail;
    assert(list.skip(i)[0] == e);
    assert(list.skip(i).skip(1) =~= list.skip(i + 1));
    let all = seq![head] + e.length + e.distance + rest;
    assert(laid(list.skip(i)) + tail =~= all);
    assert(b.skip(p).len() == b.len() - p);
    assert(all.len() == 1 + n + m + rest.len());
    assert(b[p] == b.skip(p)[0]);
    assert(all[0] == head);
    assert(head == 16 * m + n);
    assert forall|k: int| 0 <= k < all.len() implies b[p + k] == #[trigger] all[k] by {
        assert(b.skip(p)[k] == b[p + k]);
    }
    assert(b.subrange(p + 1, p + 1 + n) =~= e.length) by {
        assert forall|k: int| 0 <= k < n implies b[p + 1 + k] == #[trigger] e.length[k] by {
            assert(all[1 + k] == e.length[k]);
        }
    }
    assert(b.subrange(p + 1 + n, p + 1 + n + m) =~= e.distance) by {
        assert forall|k: int| 0 <= k < m implies b[p + 1 + n + k] == #[trigger] e.distance[k] by {
            assert(all[1 + n + k] == e.distance[k]);
        }
    }
    assert(b.skip(p + 1 + n + m) =~= rest) by {
        assert forall|k: int| 0 <= k < rest.len() implies b[p + 1 + n + m + k] == #[trigger] rest[k] by {
            assert(all[1 + n + m + k] == rest[k]);
        }
    }
}

proof fn lemma_sums_from(list: Seq<RunFields>, tail: Seq<u8>, b: Seq<u8>, p: int, i: int)
    requires
        0 <= i <= list.len(),
        0 <= p <= b.len(),
        b.skip(p) == laid(list.skip(i)) + tail,
        forall|k: int| 0 <= k < list.len() ==> #[trigger] names_run(list, k),
        tail.len() == 0 || tail[0] == 0,
    ensures
        data_runs::decoded_from(b, p, distance_sum(list, i), length_sum(list, i)) == Ok::<
            Seq<DataRun>,
            Seq<char>,
        >(Seq::new(list.len(), |k: int| run_named(list, k)).skip(i)),
    decreases list.len() - i,
{
    let all = Seq::new(list.len(), |k: int| run_named(list, k));
    if i == list.len() {
        assert(laid(list.skip(i)) + tail =~= tail);
        assert(tail.len() > 0 ==> b[p] == b.skip(p)[0]);
        assert(all.skip(i) =~= Seq::<DataRun>::empty());
    } else {
        let e = list[i];
        let n = e.length.len() as int;
        let m = e.distance.len() as int;
        assert(names_run(list, i));
        lemma_first_entry(list, tail, b, p, i);
        lemma_sums_from(list, tail, b, p + 1 + n + m, i + 1);
        if m == 0 {
            assert(distance_sum(list, i + 1) == distance_sum(list, i));
        }
        assert(seq![run_named(list, i)] + all.skip(i + 1) =~= all.skip(i));
    }
}

/// A hole changes no address of what stands behind it.
pub proof fn lemma_a_hole_moves_nothing(list: Seq<RunFields>, at: int, hole: RunFields, k: int)
    requires
        0 <= at <= k < list.len(),
        hole.distance.len() == 0,
    ensures
        run_named(list.insert(at, hole), k + 1).lcn == run_named(list, k).lcn,
        run_named(list.insert(at, hole), k + 1).length == run_named(list, k).length,
{
    let more = list.insert(at, hole);
    assert(more[k + 1] == list[k]);
    lemma_sum_with_hole(list, at, hole, k + 1);
}

proof fn lemma_sum_with_hole(list: Seq<RunFields>, at: int, hole: RunFields, k: int)
    requires
        0 <= at <= k <= list.len(),
        hole.distance.len() == 0,
    ensures
        distance_sum(list.insert(at, hole), k + 1) == distance_sum(list, k),
    decreases k,
{
    let more = list.insert(at, hole);
    if k > at {
        lemma_sum_with_hole(list, at, hole, k - 1);
        assert(more[k] == list[k - 1]);
    } else {
        assert(more[at] == hole);
        lemma_same_sum(list, at, hole, k);
    }
}

proof fn lemma_same_sum(list: Seq<RunFields>, at: int, hole: RunFields, k: int)
    requires
        0 <= k <= at <= list.len(),
    ensures
        distance_sum(list.insert(at, hole), k) == distance_sum(list, k),
    decreases k,
{
    if k > 0 {
        lemma_same_sum(list, at, hole, k - 1);
        assert(list.insert(at, hole)[k - 1] == list[k - 1]);
    }
}

/// Runs can be written down exactly where they follow one another from 0 on, none
/// is empty, and their lengths and addresses fit 63 bits and their clusters 64.
pub proof fn lemma_what_can_be_encoded(runs: Seq<DataRun>)
    ensures
        data_runs::encoded(runs) is Ok <==> forall|i: int|
            0 <= i < runs.len() ==> can_stand(runs, i),
{
    if forall|i: int| 0 <= i < runs.len() ==> can_stand(runs, i) {
        lemma_encodes_from(runs, 0, 0, 0);
    } else {
        let i = choose|i: int| 0 <= i < runs.len() && !can_stand(runs, i);
        lemma_does_not_encode(runs, 0, 0, 0, i);
    }
}

/// Run `i` begins where the one before it ends, is not empty, and its numbers fit.
pub open spec fn can_stand(runs: Seq<DataRun>, i: int) -> bool {
    &&& runs[i].starting_vcn == if i == 0 {
        0
    } else {
        runs[i - 1].starting_vcn + runs[i - 1].length
    }
    &&& 0 < runs[i].length <= i64::MAX
    &&& runs[i].starting_vcn + runs[i].length <= u64::MAX
    &&& runs[i].lcn matches Some(lcn) ==> lcn <= i64::MAX
}

proof fn lemma_encodes_from(runs: Seq<DataRun>, i: int, prev: int, vcn: int)
    requires
        0 <= i <= runs.len(),
        forall|j: int| 0 <= j < runs.len() ==> #[trigger] can_stand(runs, j),
        vcn == if i == 0 {
            0
        } else {
            runs[i - 1].starting_vcn + runs[i - 1].length
        },
    ensures
        data_runs::encoded_from(runs, i, prev, vcn) is Ok,
    decreases runs.len() - i,
{
    if i < runs.len() {
        let r = runs[i];
        assert(can_stand(runs, i));
        lemma_encodes_from(
            runs,
            i + 1,
            match r.lcn {
                Some(lcn) => lcn as int,
                None => prev,
            },
            vcn + r.length,
        );
    }
}

proof fn lemma_does_not_encode(runs: Seq<DataRun>, i: int, prev: int, vcn: int, bad: int)
    requires
        0 <= i <= bad < runs.len(),
        !can_stand(runs, bad),
        vcn == if i == 0 {
            0
        } else {
            runs[i - 1].starting_vcn + runs[i - 1].length
        },
    ensures
        data_runs::encoded_from(runs, i, prev, vcn) is Err,
    decreases bad - i,
{
    let r = runs[i];
    if i < bad && r.starting_vcn == vcn {
        lemma_does_not_encode(
            runs,
            i + 1,
            match r.lcn {
                Some(lcn) => lcn as int,
                None => prev,
            },
            vcn + r.length,
            bad,
        );
    }
}

/// A number is written in the fewest bytes in which it fits with its sign.
pub proof fn lemma_width_is_least(v: int, n: nat)
    requires
        i64::MIN <= v <= i64::MAX,
        1 <= n <= 8,
    ensures
        1 <= data_runs::signed_width(v) <= 8,
        -data_runs::pow256(data_runs::signed_width(v)) <= 2 * v < data_runs::pow256(
            data_runs::signed_width(v),
        ),
        n < data_runs::signed_width(v) ==> !(-data_runs::pow256(n) <= 2 * v < data_runs::pow256(n)),
{
    data_runs::lemma_width(v, 1);
    if n < data_runs::signed_width(v) {
        lemma_narrower(v, 1, n);
    }
}

proof fn lemma_narrower(v: int, k: nat, n: nat)
    requires
        1 <= k <= n,
        n < data_runs::width_from(v, k),
    ensures
        !(-data_runs::pow256(n) <= 2 * v < data_runs::pow256(n)),
    decreases 8 - k,
{
    if k < n && k < 8 {
        lemma_narrower(v, k + 1, n);
    }
}

/// The address of a cluster is that of the first cluster of its run, and as much
/// more as it is further in the run. A cluster of a hole has none, and so it is
/// with one that no run covers.
pub proof fn lemma_address_within_its_run(runs: Seq<DataRun>, k: int, v: int)
    requires
        forall|i: int, j: int|
            0 <= i < j < runs.len() ==> (#[trigger] runs[i]).starting_vcn + runs[i].length <= (
            #[trigger] runs[j]).starting_vcn,
    ensures
        0 <= k < runs.len() && runs[k].starting_vcn <= v < runs[k].starting_vcn + runs[k].length
            ==> data_runs::address_of(runs, v) == match runs[k].lcn {
            Some(lcn) => Some(lcn + (v - runs[k].starting_vcn)),
            None => None,
        },
        (forall|i: int|
            0 <= i < runs.len() ==> !((#[trigger] runs[i]).starting_vcn <= v
                < runs[i].starting_vcn + runs[i].length)) ==> data_runs::address_of(runs, v)
            is None,
    decreases runs.len(),
{
    if runs.len() > 0 {
        let rest = runs.skip(1);
        assert forall|i: int, j: int| 0 <= i < j < rest.len() implies (
        #[trigger] rest[i]).starting_vcn + rest[i].length <= (#[trigger] rest[j]).starting_vcn by {
            assert(rest[i] == runs[i + 1] && rest[j] == runs[j + 1]);
        }
        lemma_address_within_its_run(rest, k - 1, v);
        if 0 < k < runs.len() {
            assert(rest[k - 1] == runs[k]);
            assert(runs[0].starting_vcn + runs[0].length <= runs[k].starting_vcn);
        }
        if forall|i: int|
            0 <= i < runs.len() ==> !((#[trigger] runs[i]).starting_vcn <= v
                < runs[i].starting_vcn + runs[i].length) {
            assert(!(runs[0].starting_vcn <= v < runs[0].starting_vcn + runs[0].length));
            assert forall|i: int| 0 <= i < rest.len() implies !((#[trigger] rest[i]).starting_vcn
                <= v < rest[i].starting_vcn + rest[i].length) by {
                assert(rest[i] == runs[i + 1]);
            }
        }
    }
}

/// Byte `b` of an attribute is in the cluster whose number is `b` divided by the
/// size of a cluster, as far into it as the division leaves: on disk it is that
/// far behind the start of the cluster's address.
pub proof fn lemma_byte_within_its_cluster(
    runs: Seq<DataRun>,
    cluster_size: int,
    vcn: int,
    offset: int,
)
    requires
        data_runs::contiguous_from(runs, 0),
        0 < cluster_size,
        0 <= vcn,
        0 <= offset < cluster_size,
        data_runs::address_of(runs, vcn) is Some,
    ensures
        chunks::place(runs, cluster_size, vcn * cluster_size + offset) == data_runs::address_of(
            runs,
            vcn,
        )->0 * cluster_size + offset,
{
    let b = vcn * cluster_size + offset;
    vstd::arithmetic::div_mod::lemma_fundamental_div_mod_converse(b, cluster_size, vcn, offset);
    lemma_covering_is_addressed(runs, 0, vcn);
}

proof fn lemma_covering_is_addressed(runs: Seq<DataRun>, from: int, vcn: int)
    requires
        data_runs::contiguous_from(runs, from),
        data_runs::address_of(runs, vcn) is Some,
    ensures
        ({
            let run = data_runs::covering_run(runs, vcn);
            &&& run is Some
            &&& run->0.lcn is Some
            &&& data_runs::address_of(runs, vcn)->0 == run->0.lcn->0 + (vcn
                - run->0.starting_vcn)
        }),
    decreases runs.len(),
{
    if runs.len() > 0 && !data_runs::covers(runs[0], vcn) {
        lemma_covering_is_addressed(runs.skip(1), from + runs[0].length, vcn);
    }
}

/// What is said of an entry that names no run, and where it is said to be: at the
/// byte where the entry begins, or its length does, or its distance, or the entry
/// behind it.
pub open spec fn said_of(list: Seq<RunFields>, bad: Seq<u8>) -> Seq<char> {
    let n = bad[0] as int % 16;
    let m = bad[0] as int / 16;
    let at = laid(list).len() as int;
    let length = data_runs::uint_of(bad.subrange(1, 1 + n));
    let address = distance_sum(list, list.len() as int) + data_runs::signed(
        data_runs::uint_of(bad.subrange(1 + n, 1 + n + m)) as int,
        m as nat,
    );
    if n == 0 {
        "run at offset "@ + text::dec(at as nat) + ": length-byte-count is zero"@
    } else if n > 8 || m > 8 {
        "run at offset "@ + text::dec(at as nat) + ": invalid header "@ + data_runs::hex_byte(
            bad[0],
        )
    } else if 1 + n + m > bad.len() {
        "run at offset "@ + text::dec((at + 1) as nat) + ": extends past data ("@ + text::dec(
            n as nat,
        ) + "+"@ + text::dec(m as nat) + " needed, "@ + text::dec((bad.len() - 1) as nat)
            + " left)"@
    } else if length == 0 {
        "run at offset "@ + text::dec((at + 1 + n) as nat) + ": zero-cluster length"@
    } else if m > 0 && address > i64::MAX {
        "LCN delta overflow at offset "@ + text::dec((at + 1 + n + m) as nat)
    } else if m > 0 && address < 0 {
        "negative absolute LCN -"@ + text::dec((-address) as nat)
    } else {
        "VCN overflow"@
    }
}

/// The bytes begin with an entry that names no run behind those of the list.
pub open spec fn is_bad(list: Seq<RunFields>, bad: Seq<u8>) -> bool {
    let n = bad[0] as int % 16;
    let m = bad[0] as int / 16;
    let length = data_runs::uint_of(bad.subrange(1, 1 + n));
    let address = distance_sum(list, list.len() as int) + data_runs::signed(
        data_runs::uint_of(bad.subrange(1 + n, 1 + n + m)) as int,
        m as nat,
    );
    ||| n == 0
    ||| n > 8
    ||| m > 8
    ||| 1 + n + m > bad.len()
    ||| length == 0
    ||| length_sum(list, list.len() as int) + length > u64::MAX
    ||| m > 0 && (address < 0 || address > i64::MAX)
}

/// A run list with an entry that names no run is refused, whatever stands before
/// it and behind: one whose sizes are not those of fields, or whose fields are not
/// all there, or whose length is zero or leads past 64 bits, or whose address is
/// negative or does not fit 63 bits. It is said which entry that is and what is
/// wrong with it.
pub proof fn lemma_what_is_said_of_a_bad_entry(list: Seq<RunFields>, bad: Seq<u8>)
    requires
        forall|k: int| 0 <= k < list.len() ==> #[trigger] names_run(list, k),
        bad.len() > 0,
        bad[0] != 0,
        is_bad(list, bad),
    ensures
        data_runs::decoded(laid(list) + bad) == Err::<Seq<DataRun>, Seq<char>>(said_of(list, bad)),
{
    let b = laid(list) + bad;
    assert(list.skip(0) =~= list);
    assert(b.skip(0) =~= laid(list.skip(0)) + bad);
    lemma_said_from(list, bad, b, 0, 0);
}

proof fn lemma_said_from(list: Seq<RunFields>, bad: Seq<u8>, b: Seq<u8>, p: int, i: int)
    requires
        0 <= i <= list.len(),
        0 <= p <= b.len(),
        b.skip(p) == laid(list.skip(i)) + bad,
        b.len() == laid(list).len() + bad.len(),
        forall|k: int| 0 <= k < list.len() ==> #[trigger] names_run(list, k),
        bad.len() > 0,
        bad[0] != 0,
        is_bad(list, bad),
    ensures
        data_runs::decoded_from(b, p, distance_sum(list, i), length_sum(list, i)) == Err::<
            Seq<DataRun>,
            Seq<char>,
        >(said_of(list, bad)),
    decreases list.len() - i,
{
    if i == list.len() {
        let n = bad[0] as int % 16;
        let m = bad[0] as int / 16;
        assert(laid(list.skip(i)) + bad =~= bad);
        assert(b[p] == b.skip(p)[0]);
        assert(b.skip(p).len() == b.len() - p);
        assert(p == laid(list).len());
        if 1 + n + m <= bad.len() {
            assert(b.skip(p).subrange(1, 1 + n) =~= b.subrange(p + 1, p + 1 + n));
            assert(b.skip(p).subrange(1 + n, 1 + n + m) =~= b.subrange(
                p + 1 + n,
                p + 1 + n + m,
            ));
        }
    } else {
        let e = list[i];
        let n = e.length.len() as int;
        let m = e.distance.len() as int;
        assert(names_run(list, i));
        lemma_first_entry(list, bad, b, p, i);
        lemma_said_from(list, bad, b, p + 1 + n + m, i + 1);
        if m == 0 {
            assert(distance_sum(list, i + 1) == distance_sum(list, i));
        }
    }
}

} // verus!
