//! Extraction of maximal runs of printable bytes from the shared buffer,
//! with configurable minimum length and selectable presentation order.
use vstd::prelude::*;

use crate::ascii::{ascii_to_string, chars_of_bytes};
use crate::Event;

verus! {

/// A byte is printable when it is a graphic ASCII character or an ASCII
/// whitespace byte (space, tab, line feed, form feed, carriage return).
pub open spec fn is_printable(b: u8) -> bool {
    (0x21 <= b <= 0x7e) || b == 0x20 || b == 0x09 || b == 0x0a || b == 0x0c || b == 0x0d
}

/// Executable form of `is_printable`.
pub fn printable(b: u8) -> (r: bool)
    ensures
        r == is_printable(b),
{
    (0x21 <= b && b <= 0x7e) || b == 0x20 || b == 0x09 || b == 0x0a || b == 0x0c || b == 0x0d
}

/// The `(address, length)` pairs of the runs the scan of `s` reports, given
/// that the scan has reached index `i` with a current candidate run of `run`
/// printable bytes ending just before `i`. A run closes at a non-printable
/// byte or at the end of the buffer, and is reported when it has at least
/// `min` bytes (and at least one).
pub open spec fn scan_from(s: Seq<u8>, min: nat, i: nat, run: nat) -> Seq<(nat, nat)>
    recommends
        run <= i <= s.len(),
    decreases s.len() - i,
{
    if i >= s.len() {
        if run >= min && run > 0 {
            seq![(((i - run) as nat), run)]
        } else {
            seq![]
        }
    } else if is_printable(s[i as int]) {
        scan_from(s, min, i + 1, run + 1)
    } else if run >= min && run > 0 {
        seq![(((i - run) as nat), run)] + scan_from(s, min, i + 1, 0)
    } else {
        scan_from(s, min, i + 1, 0)
    }
}

/// The `(address, length)` pairs of all maximal printable runs of `s` of
/// length at least `min`, in order of discovery.
pub open spec fn scan_pairs(s: Seq<u8>, min: nat) -> Seq<(nat, nat)> {
    scan_from(s, min, 0, 0)
}

/// The decoded text of the run of `s` starting at `address` with `length` bytes.
pub open spec fn run_text(s: Seq<u8>, address: nat, length: nat) -> Seq<char> {
    chars_of_bytes(s.subrange(address as int, (address + length) as int))
}

/// `(address, length)` describes a maximal printable run of `s` of length at
/// least `min`: it lies inside `s`, every byte of it is printable, and the
/// bytes just before and just after it, where they exist, are not printable.
pub open spec fn valid_run(s: Seq<u8>, min: nat, address: nat, length: nat) -> bool {
    &&& address + length <= s.len()
    &&& length >= min
    &&& length > 0
    &&& forall|j: int| address <= j < address + length ==> is_printable(#[trigger] s[j])
    &&& address > 0 ==> !is_printable(s[address - 1])
    &&& address + length < s.len() ==> !is_printable(s[(address + length) as int])
}

/// Every run reported from a mid-scan state is a maximal printable run, given
/// that the current candidate run is printable and maximal to the left.
proof fn lemma_scan_from_valid(s: Seq<u8>, min: nat, i: nat, run: nat)
    requires
        run <= i <= s.len(),
        forall|j: int| i - run <= j < i ==> is_printable(#[trigger] s[j]),
        run < i ==> !is_printable(s[i - run - 1]),
    ensures
        forall|k: int|
            0 <= k < scan_from(s, min, i, run).len() ==> {
                let p = #[trigger] scan_from(s, min, i, run)[k];
                valid_run(s, min, p.0, p.1)
            },
    decreases s.len() - i,
{
    if i >= s.len() {
    } else if is_printable(s[i as int]) {
        lemma_scan_from_valid(s, min, i + 1, run + 1);
        let whole = scan_from(s, min, i, run);
        assert forall|k: int| 0 <= k < whole.len() implies {
            let p = #[trigger] whole[k];
            valid_run(s, min, p.0, p.1)
        } by {
            assert(whole[k] == scan_from(s, min, i + 1, run + 1)[k]);
        }
    } else {
        lemma_scan_from_valid(s, min, i + 1, 0);
        let rest = scan_from(s, min, i + 1, 0);
        let whole = scan_from(s, min, i, run);
        if run >= min && run > 0 {
            assert(whole == seq![(((i - run) as nat), run)] + rest);
            assert(valid_run(s, min, (i - run) as nat, run));
            assert forall|k: int| 0 <= k < whole.len() implies {
                let p = #[trigger] whole[k];
                valid_run(s, min, p.0, p.1)
            } by {
                if k >= 1 {
                    assert(whole[k] == rest[k - 1]);
                }
            }
        } else {
            assert forall|k: int| 0 <= k < whole.len() implies {
                let p = #[trigger] whole[k];
                valid_run(s, min, p.0, p.1)
            } by {
                assert(whole[k] == rest[k]);
            }
        }
    }
}

/// Soundness and maximality of the scan: every reported `(address, length)`
/// pair lies inside the buffer, has at least the minimum length, consists of
/// printable bytes only, and is maximal — the bytes just before and just
/// after the run, where they exist, are not printable.
pub proof fn lemma_scan_pairs_valid(s: Seq<u8>, min: nat)
    ensures
        forall|k: int|
            0 <= k < scan_pairs(s, min).len() ==> {
                let p = #[trigger] scan_pairs(s, min)[k];
                valid_run(s, min, p.0, p.1)
            },
{
    lemma_scan_from_valid(s, min, 0, 0);
}

/// One maximal printable run found in the buffer.
pub struct FoundString {
    /// Offset into the buffer where the run starts.
    pub address: usize,
    /// Run length in bytes.
    pub length: usize,
    /// The run's bytes decoded as text.
    pub string: String,
}

/// The `(address, length)` pairs of a sequence of found strings.
pub open spec fn pairs_of(found: Seq<FoundString>) -> Seq<(nat, nat)> {
    found.map_values(|f: FoundString| (f.address as nat, f.length as nat))
}

/// `found` is exactly the scan of `s` with minimum run length `min`, in
/// discovery order: the addresses and lengths are the reported runs, and each
/// text is the decoded bytes of its run.
pub open spec fn scan_result(found: Seq<FoundString>, s: Seq<u8>, min: nat) -> bool {
    &&& pairs_of(found) == scan_pairs(s, min)
    &&& forall|k: int|
        0 <= k < found.len() ==> (#[trigger] found[k].string)@ == run_text(
            s,
            found[k].address as nat,
            found[k].length as nat,
        )
}

/// Presentation order of the found strings: by address or by length,
/// ascending or descending. Pure view state: it never changes the set of
/// found strings, only the order they are listed in.
#[derive(Clone, Copy, PartialEq, Eq, Structural)]
pub enum StringsSorting {
    AddressAsc,
    AddressDesc,
    LengthAsc,
    LengthDesc,
}

impl Default for StringsSorting {
    /// The default presentation order: ascending addresses.
    fn default() -> (r: Self)
        ensures
            r == StringsSorting::AddressAsc,
    {
        StringsSorting::AddressAsc
    }
}

/// `a` may stand before `b` under the given order.
pub open spec fn key_le(ord: StringsSorting, a: FoundString, b: FoundString) -> bool {
    match ord {
        StringsSorting::AddressAsc => a.address <= b.address,
        StringsSorting::AddressDesc => b.address <= a.address,
        StringsSorting::LengthAsc => a.length <= b.length,
        StringsSorting::LengthDesc => b.length <= a.length,
    }
}

/// Executable form of `key_le`.
fn le(ord: StringsSorting, a: &FoundString, b: &FoundString) -> (r: bool)
    ensures
        r == key_le(ord, *a, *b),
{
    match ord {
        StringsSorting::AddressAsc => a.address <= b.address,
        StringsSorting::AddressDesc => b.address <= a.address,
        StringsSorting::LengthAsc => a.length <= b.length,
        StringsSorting::LengthDesc => b.length <= a.length,
    }
}

/// `x` placed into `s` after every element that may stand before it: the
/// insertion step of a stable insertion sort.
pub open spec fn insert_sorted(ord: StringsSorting, x: FoundString, s: Seq<FoundString>) -> Seq<
    FoundString,
>
    decreases s.len(),
{
    if s.len() == 0 {
        seq![x]
    } else if key_le(ord, s[0], x) {
        seq![s[0]] + insert_sorted(ord, x, s.drop_first())
    } else {
        seq![x] + s
    }
}

/// The stable sort of `s` under the given order: elements are taken in their
/// original order and each is inserted after all elements that may stand
/// before it, so elements with equal keys keep their relative order.
pub open spec fn sort_by_key(ord: StringsSorting, s: Seq<FoundString>) -> Seq<FoundString>
    decreases s.len(),
{
    if s.len() == 0 {
        Seq::empty()
    } else {
        insert_sorted(ord, s.last(), sort_by_key(ord, s.drop_last()))
    }
}

/// `s` is ordered: every element may stand before each element after it.
pub open spec fn sorted_by_key(ord: StringsSorting, s: Seq<FoundString>) -> bool {
    forall|p: int, q: int| 0 <= p < q < s.len() ==> key_le(ord, s[p], s[q])
}

/// Inserting `x` at the first position whose element may not stand before
/// `x` is what `insert_sorted` does.
proof fn lemma_insert_sorted_at(ord: StringsSorting, x: FoundString, s: Seq<FoundString>, p: int)
    requires
        0 <= p <= s.len(),
        forall|j: int| 0 <= j < p ==> key_le(ord, #[trigger] s[j], x),
        p < s.len() ==> !key_le(ord, s[p], x),
    ensures
        insert_sorted(ord, x, s) == s.subrange(0, p) + seq![x] + s.subrange(p, s.len() as int),
    decreases s.len(),
{
    if s.len() == 0 {
        assert(insert_sorted(ord, x, s) =~= s.subrange(0, p) + seq![x] + s.subrange(
            p,
            s.len() as int,
        ));
    } else if p == 0 {
        assert(insert_sorted(ord, x, s) =~= s.subrange(0, p) + seq![x] + s.subrange(
            p,
            s.len() as int,
        ));
    } else {
        assert(key_le(ord, s[0], x));
        lemma_insert_sorted_at(ord, x, s.drop_first(), p - 1);
        assert(insert_sorted(ord, x, s) =~= s.subrange(0, p) + seq![x] + s.subrange(
            p,
            s.len() as int,
        ));
    }
}

/// Sorts the found strings stably under the given order.
pub fn sort_found_strings(strings: &mut Vec<FoundString>, ord: StringsSorting)
    ensures
        final(strings)@ == sort_by_key(ord, old(strings)@),
{
    let ghost orig = strings@;
    let ghost mut done: int = 0;
    let mut sorted: Vec<FoundString> = Vec::new();
    while strings.len() > 0
        invariant
            0 <= done <= orig.len(),
            strings@ =~= orig.skip(done),
            sorted@ == sort_by_key(ord, orig.take(done)),
        decreases strings@.len(),
    {
        let x = strings.remove(0);
        proof {
            assert(x == orig[done]);
            assert(strings@ =~= orig.skip(done + 1));
        }
        let mut p: usize = 0;
        while p < sorted.len() && le(ord, &sorted[p], &x)
            invariant
                p <= sorted@.len(),
                forall|j: int| 0 <= j < p ==> key_le(ord, #[trigger] sorted@[j], x),
            decreases sorted@.len() - p,
        {
            p = p + 1;
        }
        let ghost pre_sorted = sorted@;
        proof {
            lemma_insert_sorted_at(ord, x, pre_sorted, p as int);
        }
        sorted.insert(p, x);
        proof {
            done = done + 1;
            assert(sorted@ =~= pre_sorted.subrange(0, p as int) + seq![x] + pre_sorted.subrange(
                p as int,
                pre_sorted.len() as int,
            ));
            assert(orig.take(done).drop_last() =~= orig.take(done - 1));
            assert(orig.take(done).last() == x);
            assert(sorted@ == insert_sorted(ord, x, sort_by_key(ord, orig.take(done - 1))));
        }
    }
    proof {
        assert(orig.take(done) =~= orig);
    }
    let mut result = sorted;
    core::mem::swap(strings, &mut result);
}

/// Scans `file` left to right and reports every maximal run of printable
/// bytes of length at least `min_length`, in discovery order.
pub fn scan(file: &[u8], min_length: usize) -> (found: Vec<FoundString>)
    ensures
        scan_result(found@, file@, min_length as nat),
{
    let ghost min: nat = min_length as nat;
    let mut found: Vec<FoundString> = Vec::new();
    let mut run_bytes: Vec<u8> = Vec::new();
    let mut i: usize = 0;
    while i < file.len()
        invariant
            min == min_length as nat,
            i <= file@.len(),
            run_bytes@.len() <= i,
            run_bytes@ =~= file@.subrange(i - run_bytes@.len(), i as int),
            forall|j: int| 0 <= j < run_bytes@.len() ==> is_printable(#[trigger] run_bytes@[j]),
            scan_pairs(file@, min) =~= pairs_of(found@) + scan_from(
                file@,
                min,
                i as nat,
                run_bytes@.len(),
            ),
            forall|k: int|
                0 <= k < found@.len() ==> (#[trigger] found@[k].string)@ == run_text(
                    file@,
                    found@[k].address as nat,
                    found@[k].length as nat,
                ),
        decreases file@.len() - i,
    {
        let b = file[i];
        if printable(b) {
            run_bytes.push(b);
            proof {
                assert(run_bytes@ =~= file@.subrange(i + 1 - run_bytes@.len(), i + 1));
            }
        } else {
            if run_bytes.len() >= min_length && run_bytes.len() > 0 {
                let length = run_bytes.len();
                let address = i - length;
                let ghost pre_found = found@;
                let ghost rb = run_bytes@;
                assert(forall|j: int| 0 <= j < rb.len() ==> rb[j] < 128);
                let text = ascii_to_string(run_bytes);
                found.push(FoundString { address, length, string: text });
                run_bytes = Vec::new();
                proof {
                    assert(pairs_of(found@) =~= pairs_of(pre_found) + seq![
                        (address as nat, length as nat),
                    ]);
                    assert(scan_from(file@, min, i as nat, length as nat) == seq![
                        (address as nat, length as nat),
                    ] + scan_from(file@, min, (i + 1) as nat, 0nat));
                    assert(pairs_of(found@) + scan_from(file@, min, (i + 1) as nat, 0nat)
                        =~= pairs_of(pre_found) + scan_from(file@, min, i as nat, length as nat));
                    assert(text@ == run_text(file@, address as nat, length as nat));
                }
            } else {
                run_bytes.clear();
            }
            proof {
                assert(run_bytes@ =~= file@.subrange(i + 1 - run_bytes@.len(), i + 1));
            }
        }
        i = i + 1;
    }
    if run_bytes.len() >= min_length && run_bytes.len() > 0 {
        let length = run_bytes.len();
        let address = i - length;
        let ghost pre_found = found@;
        let ghost rb = run_bytes@;
        assert(forall|j: int| 0 <= j < rb.len() ==> rb[j] < 128);
        let text = ascii_to_string(run_bytes);
        found.push(FoundString { address, length, string: text });
        proof {
            assert(pairs_of(found@) =~= pairs_of(pre_found) + seq![
                (address as nat, length as nat),
            ]);
            assert(scan_from(file@, min, i as nat, length as nat) == seq![
                (address as nat, length as nat),
            ]);
            assert(pairs_of(found@) =~= scan_pairs(file@, min));
            assert(text@ == run_text(file@, address as nat, length as nat));
        }
    } else {
        proof {
            assert(scan_from(file@, min, i as nat, run_bytes@.len()) =~= Seq::<(nat, nat)>::empty());
            assert(pairs_of(found@) =~= scan_pairs(file@, min));
        }
    }
    found
}

/// The sort key an order compares by: the address or the length.
pub open spec fn key_of(ord: StringsSorting, e: FoundString) -> nat {
    match ord {
        StringsSorting::AddressAsc => e.address as nat,
        StringsSorting::AddressDesc => e.address as nat,
        StringsSorting::LengthAsc => e.length as nat,
        StringsSorting::LengthDesc => e.length as nat,
    }
}

/// The order that lists the same key the other way round.
pub open spec fn opposite(ord: StringsSorting) -> StringsSorting {
    match ord {
        StringsSorting::AddressAsc => StringsSorting::AddressDesc,
        StringsSorting::AddressDesc => StringsSorting::AddressAsc,
        StringsSorting::LengthAsc => StringsSorting::LengthDesc,
        StringsSorting::LengthDesc => StringsSorting::LengthAsc,
    }
}

/// Every element of `insert_sorted(ord, x, s)` is an element of `s` or is `x`.
proof fn lemma_insert_preserves_forall(
    ord: StringsSorting,
    x: FoundString,
    s: Seq<FoundString>,
    p: spec_fn(FoundString) -> bool,
)
    requires
        p(x),
        forall|j: int| 0 <= j < s.len() ==> p(#[trigger] s[j]),
    ensures
        forall|j: int|
            0 <= j < insert_sorted(ord, x, s).len() ==> p(#[trigger] insert_sorted(ord, x, s)[j]),
    decreases s.len(),
{
    if s.len() == 0 {
    } else if key_le(ord, s[0], x) {
        lemma_insert_preserves_forall(ord, x, s.drop_first(), p);
        let r = insert_sorted(ord, x, s);
        let rr = insert_sorted(ord, x, s.drop_first());
        assert forall|j: int| 0 <= j < r.len() implies p(#[trigger] r[j]) by {
            if j >= 1 {
                assert(r[j] == rr[j - 1]);
            }
        }
    }
}

/// Sorting keeps every property that all elements of the input share.
proof fn lemma_sort_preserves_forall(
    ord: StringsSorting,
    s: Seq<FoundString>,
    p: spec_fn(FoundString) -> bool,
)
    requires
        forall|j: int| 0 <= j < s.len() ==> p(#[trigger] s[j]),
    ensures
        forall|j: int|
            0 <= j < sort_by_key(ord, s).len() ==> p(#[trigger] sort_by_key(ord, s)[j]),
    decreases s.len(),
{
    if s.len() > 0 {
        lemma_sort_preserves_forall(ord, s.drop_last(), p);
        lemma_insert_preserves_forall(ord, s.last(), sort_by_key(ord, s.drop_last()), p);
    }
}

/// Inserting into an ordered sequence keeps it ordered.
proof fn lemma_insert_preserves_sorted(ord: StringsSorting, x: FoundString, s: Seq<FoundString>)
    requires
        sorted_by_key(ord, s),
    ensures
        sorted_by_key(ord, insert_sorted(ord, x, s)),
    decreases s.len(),
{
    if s.len() == 0 {
    } else if key_le(ord, s[0], x) {
        assert(sorted_by_key(ord, s.drop_first())) by {
            assert(forall|p: int, q: int|
                0 <= p < q < s.drop_first().len() ==> key_le(
                    ord,
                    #[trigger] s.drop_first()[p],
                    #[trigger] s.drop_first()[q],
                ));
        }
        lemma_insert_preserves_sorted(ord, x, s.drop_first());
        let rr = insert_sorted(ord, x, s.drop_first());
        lemma_insert_preserves_forall(
            ord,
            x,
            s.drop_first(),
            |e: FoundString| key_le(ord, s[0], e),
        );
        let r = insert_sorted(ord, x, s);
        assert forall|p: int, q: int| 0 <= p < q < r.len() implies key_le(
            ord,
            r[p],
            r[q],
        ) by {
            if p == 0 {
                assert(r[q] == rr[q - 1]);
            } else {
                assert(r[p] == rr[p - 1] && r[q] == rr[q - 1]);
            }
        }
    } else {
        let r = insert_sorted(ord, x, s);
        assert forall|p: int, q: int| 0 <= p < q < r.len() implies key_le(
            ord,
            r[p],
            r[q],
        ) by {
            assert(r[0] == x);
            assert(key_le(ord, x, s[0]));
            if p == 0 {
                assert(r[q] == s[q - 1]);
                if q - 1 > 0 {
                    assert(key_le(ord, s[0], s[q - 1]));
                }
            } else {
                assert(r[p] == s[p - 1] && r[q] == s[q - 1]);
            }
        }
    }
}

/// The stable sort orders its input: every element of the result may stand
/// before each element after it.
pub proof fn lemma_sort_by_key_sorted(ord: StringsSorting, s: Seq<FoundString>)
    ensures
        sorted_by_key(ord, sort_by_key(ord, s)),
    decreases s.len(),
{
    if s.len() > 0 {
        lemma_sort_by_key_sorted(ord, s.drop_last());
        lemma_insert_preserves_sorted(ord, s.last(), sort_by_key(ord, s.drop_last()));
    }
}

/// An element that may not stand before `x` stays at the back: inserting `x`
/// into `u` with `a` appended appends `a` to the insertion into `u`.
proof fn lemma_insert_snoc(
    ord: StringsSorting,
    x: FoundString,
    u: Seq<FoundString>,
    a: FoundString,
)
    requires
        !key_le(ord, a, x),
    ensures
        insert_sorted(ord, x, u.push(a)) == insert_sorted(ord, x, u).push(a),
    decreases u.len(),
{
    if u.len() == 0 {
        assert(u.push(a)[0] == a);
        assert(insert_sorted(ord, x, u.push(a)) =~= insert_sorted(ord, x, u).push(a));
    } else if key_le(ord, u[0], x) {
        lemma_insert_snoc(ord, x, u.drop_first(), a);
        assert(u.push(a).drop_first() =~= u.drop_first().push(a));
        assert(insert_sorted(ord, x, u.push(a)) =~= insert_sorted(ord, x, u).push(a));
    } else {
        assert(insert_sorted(ord, x, u.push(a)) =~= insert_sorted(ord, x, u).push(a));
    }
}

/// When every element of `u` may stand before `x`, the insertion appends `x`.
proof fn lemma_insert_all_le(ord: StringsSorting, x: FoundString, u: Seq<FoundString>)
    requires
        forall|j: int| 0 <= j < u.len() ==> key_le(ord, #[trigger] u[j], x),
    ensures
        insert_sorted(ord, x, u) == u + seq![x],
    decreases u.len(),
{
    if u.len() == 0 {
        assert(insert_sorted(ord, x, u) =~= u + seq![x]);
    } else {
        lemma_insert_all_le(ord, x, u.drop_first());
        assert(insert_sorted(ord, x, u) =~= u + seq![x]);
    }
}

/// Inserting into the reversed sequence under the opposite order reverses the
/// insertion, provided `x`'s key ties with no element of `t`.
proof fn lemma_insert_reverse(ord: StringsSorting, x: FoundString, t: Seq<FoundString>)
    requires
        sorted_by_key(ord, t),
        forall|j: int| 0 <= j < t.len() ==> key_of(ord, #[trigger] t[j]) != key_of(ord, x),
    ensures
        insert_sorted(opposite(ord), x, t.reverse()) == insert_sorted(ord, x, t).reverse(),
    decreases t.len(),
{
    if t.len() == 0 {
        assert(t.reverse() =~= t);
        assert(insert_sorted(opposite(ord), x, t.reverse()) =~= insert_sorted(
            ord,
            x,
            t,
        ).reverse());
    } else if key_le(ord, t[0], x) {
        let tr = t.drop_first();
        assert(sorted_by_key(ord, tr)) by {
            assert(forall|p: int, q: int|
                0 <= p < q < tr.len() ==> key_le(ord, #[trigger] tr[p], #[trigger] tr[q]));
        }
        lemma_insert_reverse(ord, x, tr);
        assert(t.reverse() =~= tr.reverse().push(t[0]));
        assert(!key_le(opposite(ord), t[0], x));
        lemma_insert_snoc(opposite(ord), x, tr.reverse(), t[0]);
        assert(insert_sorted(ord, x, t).reverse() =~= insert_sorted(ord, x, tr).reverse().push(
            t[0],
        ));
    } else {
        // `x` may stand before every element of `t`, so under the opposite
        // order every element of the reversal may stand before `x`.
        assert(key_le(ord, x, t[0]));
        assert forall|j: int| 0 <= j < t.reverse().len() implies key_le(
            opposite(ord),
            #[trigger] t.reverse()[j],
            x,
        ) by {
            let e = t.reverse()[j];
            assert(e == t[t.len() - 1 - j]);
            if t.len() - 1 - j > 0 {
                assert(key_le(ord, t[0], t[t.len() - 1 - j]));
            }
        }
        lemma_insert_all_le(opposite(ord), x, t.reverse());
        assert(insert_sorted(opposite(ord), x, t.reverse()) =~= insert_sorted(
            ord,
            x,
            t,
        ).reverse());
    }
}

/// Sorting under opposite orders yields exactly reversed sequences when no
/// two elements tie on the sort key.
pub proof fn lemma_sort_by_key_reverse(ord: StringsSorting, s: Seq<FoundString>)
    requires
        forall|p: int, q: int|
            0 <= p < q < s.len() ==> key_of(ord, #[trigger] s[p]) != key_of(ord, #[trigger] s[q]),
    ensures
        sort_by_key(opposite(ord), s) == sort_by_key(ord, s).reverse(),
    decreases s.len(),
{
    if s.len() == 0 {
        assert(sort_by_key(opposite(ord), s) =~= sort_by_key(ord, s).reverse());
    } else {
        let sd = s.drop_last();
        let x = s.last();
        assert(forall|p: int, q: int|
            0 <= p < q < sd.len() ==> key_of(ord, #[trigger] sd[p]) != key_of(
                ord,
                #[trigger] sd[q],
            ));
        lemma_sort_by_key_reverse(ord, sd);
        lemma_sort_by_key_sorted(ord, sd);
        lemma_sort_preserves_forall(
            ord,
            sd,
            |e: FoundString| key_of(ord, e) != key_of(ord, x),
        );
        lemma_insert_reverse(ord, x, sort_by_key(ord, sd));
        assert(key_of(opposite(ord), x) == key_of(ord, x));
    }
}

/// The elements of `s` whose sort key is `v`, in their order in `s`.
pub open spec fn keep_key(ord: StringsSorting, v: nat, s: Seq<FoundString>) -> Seq<FoundString>
    decreases s.len(),
{
    if s.len() == 0 {
        Seq::empty()
    } else if key_of(ord, s[0]) == v {
        seq![s[0]] + keep_key(ord, v, s.drop_first())
    } else {
        keep_key(ord, v, s.drop_first())
    }
}

/// `keep_key` over a sequence with one element appended.
proof fn lemma_keep_key_snoc(
    ord: StringsSorting,
    v: nat,
    u: Seq<FoundString>,
    a: FoundString,
)
    ensures
        keep_key(ord, v, u.push(a)) == if key_of(ord, a) == v {
            keep_key(ord, v, u).push(a)
        } else {
            keep_key(ord, v, u)
        },
    decreases u.len(),
{
    if u.len() == 0 {
        assert(u.push(a)[0] == a);
        assert(u.push(a).drop_first() =~= Seq::<FoundString>::empty());
        assert(keep_key(ord, v, u.push(a).drop_first()) =~= Seq::<FoundString>::empty());
        if key_of(ord, a) == v {
            assert(keep_key(ord, v, u.push(a)) =~= keep_key(ord, v, u).push(a));
        }
    } else {
        lemma_keep_key_snoc(ord, v, u.drop_first(), a);
        assert(u.push(a)[0] == u[0]);
        assert(u.push(a).drop_first() =~= u.drop_first().push(a));
        if key_of(ord, a) == v {
            if key_of(ord, u[0]) == v {
                assert(keep_key(ord, v, u.push(a)) =~= keep_key(ord, v, u).push(a));
            }
        }
    }
}

/// Inserting `x` into an ordered sequence puts `x` after every element with
/// `x`'s key and changes nothing else about any key's elements.
proof fn lemma_insert_keep_key(
    ord: StringsSorting,
    v: nat,
    x: FoundString,
    s: Seq<FoundString>,
)
    requires
        sorted_by_key(ord, s),
    ensures
        keep_key(ord, v, insert_sorted(ord, x, s)) == if key_of(ord, x) == v {
            keep_key(ord, v, s).push(x)
        } else {
            keep_key(ord, v, s)
        },
    decreases s.len(),
{
    if s.len() == 0 {
        assert(insert_sorted(ord, x, s) == seq![x]);
        assert(insert_sorted(ord, x, s).drop_first() =~= Seq::<FoundString>::empty());
        assert(keep_key(ord, v, insert_sorted(ord, x, s).drop_first())
            =~= Seq::<FoundString>::empty());
        if key_of(ord, x) == v {
            assert(keep_key(ord, v, insert_sorted(ord, x, s)) =~= keep_key(ord, v, s).push(x));
        }
    } else if key_le(ord, s[0], x) {
        let sr = s.drop_first();
        assert(sorted_by_key(ord, sr)) by {
            assert(forall|p: int, q: int|
                0 <= p < q < sr.len() ==> key_le(ord, #[trigger] sr[p], #[trigger] sr[q]));
        }
        lemma_insert_keep_key(ord, v, x, sr);
        let r = insert_sorted(ord, x, s);
        assert(r == seq![s[0]] + insert_sorted(ord, x, sr));
        assert(r[0] == s[0]);
        assert(r.drop_first() =~= insert_sorted(ord, x, sr));
        if key_of(ord, x) == v && key_of(ord, s[0]) == v {
            assert(keep_key(ord, v, r) =~= keep_key(ord, v, s).push(x));
        }
    } else {
        // `x` stands in front; no element of `s` shares `x`'s key ahead of
        // it, since every element of `s` may not stand before `x`.
        let r = insert_sorted(ord, x, s);
        assert(r == seq![x] + s);
        assert(r[0] == x);
        assert(r.drop_first() =~= s);
        if key_of(ord, x) == v {
            // every element of `s` has a key on the far side of `x`'s, so
            // none has key `v`: the kept elements are exactly `[x]`.
            assert forall|j: int| 0 <= j < s.len() implies key_of(ord, #[trigger] s[j])
                != v by {
                if j > 0 {
                    assert(key_le(ord, s[0], s[j]));
                }
                assert(key_le(ord, x, s[j]));
            }
            lemma_keep_key_none(ord, v, s);
            assert(keep_key(ord, v, r) =~= keep_key(ord, v, s).push(x));
        }
    }
}

/// A sequence without the key has nothing to keep.
proof fn lemma_keep_key_none(ord: StringsSorting, v: nat, s: Seq<FoundString>)
    requires
        forall|j: int| 0 <= j < s.len() ==> key_of(ord, #[trigger] s[j]) != v,
    ensures
        keep_key(ord, v, s) == Seq::<FoundString>::empty(),
    decreases s.len(),
{
    if s.len() > 0 {
        lemma_keep_key_none(ord, v, s.drop_first());
    }
}

/// Stability of the sort: for every key value, the elements carrying that key
/// appear in the sorted sequence exactly in their original relative order.
pub proof fn lemma_sort_by_key_stable(ord: StringsSorting, v: nat, s: Seq<FoundString>)
    ensures
        keep_key(ord, v, sort_by_key(ord, s)) == keep_key(ord, v, s),
    decreases s.len(),
{
    if s.len() == 0 {
    } else {
        let sd = s.drop_last();
        let x = s.last();
        lemma_sort_by_key_stable(ord, v, sd);
        lemma_sort_by_key_sorted(ord, sd);
        lemma_insert_keep_key(ord, v, x, sort_by_key(ord, sd));
        assert(s =~= sd.push(x));
        lemma_keep_key_snoc(ord, v, sd, x);
    }
}

/// `found` is the derived state the string scanner owes for buffer `s`: the
/// scan of `s` with minimum run length `min`, sorted stably under `ord`.
pub open spec fn strings_state(
    found: Seq<FoundString>,
    s: Seq<u8>,
    min: nat,
    ord: StringsSorting,
) -> bool {
    exists|raw: Seq<FoundString>|
        #[trigger] scan_result(raw, s, min) && found == sort_by_key(ord, raw)
}

/// The string-extraction analyzer: owns the strings found in the buffer at
/// the last recompute, the presentation order, and the minimum run length.
pub struct StringFinder {
    /// The found strings, sorted under `current_sorting`.
    pub strings: Vec<FoundString>,
    /// The presentation order currently applied to `strings`.
    pub current_sorting: StringsSorting,
    /// Minimum length of a printable run for it to be reported.
    pub string_min_length: usize,
}

impl StringFinder {
    /// Creates the analyzer with the default minimum length and order, fully
    /// initialized against the buffer's current contents.
    pub fn new(file: &[u8]) -> (r: Self)
        ensures
            r.string_min_length == 5,
            r.current_sorting == StringsSorting::AddressAsc,
            strings_state(r.strings@, file@, 5, StringsSorting::AddressAsc),
    {
        let mut this = StringFinder {
            strings: Vec::new(),
            current_sorting: StringsSorting::default(),
            string_min_length: 5,
        };
        this.find_strings(file);
        this
    }

    /// Rescans the buffer and replaces the previous set of found strings,
    /// sorted under the current order. Minimum length and order are kept.
    pub fn find_strings(&mut self, file: &[u8])
        ensures
            final(self).string_min_length == old(self).string_min_length,
            final(self).current_sorting == old(self).current_sorting,
            strings_state(
                final(self).strings@,
                file@,
                old(self).string_min_length as nat,
                old(self).current_sorting,
            ),
    {
        let mut raw = scan(file, self.string_min_length);
        let ghost raw_seq = raw@;
        sort_found_strings(&mut raw, self.current_sorting);
        self.strings = raw;
        proof {
            assert(scan_result(raw_seq, file@, self.string_min_length as nat));
        }
    }

    /// Re-sorts the current set of found strings under the current order.
    fn sort_strings(&mut self)
        ensures
            final(self).string_min_length == old(self).string_min_length,
            final(self).current_sorting == old(self).current_sorting,
            final(self).strings@ == sort_by_key(old(self).current_sorting, old(self).strings@),
    {
        sort_found_strings(&mut self.strings, self.current_sorting);
    }

    /// Flips the order on the address column: a repeated request for the
    /// ascending address order turns it descending; anything else turns it
    /// ascending. The strings are re-sorted under the new order.
    pub fn toggle_address_sorting(&mut self)
        ensures
            final(self).string_min_length == old(self).string_min_length,
            final(self).current_sorting == (if old(self).current_sorting
                == StringsSorting::AddressAsc {
                StringsSorting::AddressDesc
            } else {
                StringsSorting::AddressAsc
            }),
            final(self).strings@ == sort_by_key(final(self).current_sorting, old(self).strings@),
    {
        match self.current_sorting {
            StringsSorting::AddressAsc => {
                self.current_sorting = StringsSorting::AddressDesc;
            },
            _ => {
                self.current_sorting = StringsSorting::AddressAsc;
            },
        }
        self.sort_strings();
    }

    /// Flips the order on the length column, as `toggle_address_sorting` does
    /// for the address column.
    pub fn toggle_length_sorting(&mut self)
        ensures
            final(self).string_min_length == old(self).string_min_length,
            final(self).current_sorting == (if old(self).current_sorting
                == StringsSorting::LengthAsc {
                StringsSorting::LengthDesc
            } else {
                StringsSorting::LengthAsc
            }),
            final(self).strings@ == sort_by_key(final(self).current_sorting, old(self).strings@),
    {
        match self.current_sorting {
            StringsSorting::LengthAsc => {
                self.current_sorting = StringsSorting::LengthDesc;
            },
            _ => {
                self.current_sorting = StringsSorting::LengthAsc;
            },
        }
        self.sort_strings();
    }

    /// Sets the minimum run length and rescans the buffer.
    pub fn set_min_length(&mut self, file: &[u8], min_length: usize)
        ensures
            final(self).string_min_length == min_length,
            final(self).current_sorting == old(self).current_sorting,
            strings_state(
                final(self).strings@,
                file@,
                min_length as nat,
                old(self).current_sorting,
            ),
    {
        self.string_min_length = min_length;
        self.find_strings(file);
    }

    /// Display name of the analyzer.
    pub fn title(&self) -> (r: String)
        ensures
            r@ == "Strings"@,
    {
        "Strings".to_owned()
    }

    /// Recomputes the derived state in response to a buffer-changed event.
    pub fn notify_event(&mut self, event: Event, file: &[u8])
        ensures
            final(self).string_min_length == old(self).string_min_length,
            final(self).current_sorting == old(self).current_sorting,
            strings_state(
                final(self).strings@,
                file@,
                old(self).string_min_length as nat,
                old(self).current_sorting,
            ),
    {
        match event {
            Event::FileChanged => {
                self.find_strings(file);
            },
        }
    }
}

} // verus!
