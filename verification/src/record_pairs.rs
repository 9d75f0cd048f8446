use vstd::prelude::*;

use crate::record::flag_is_nonprimary;
use crate::record::flag_is_read_1;
use crate::record::flag_is_read_2;
use crate::record::DecodeError;
use crate::record::Record;
use crate::record::RecordView;

verus! {

/// Which mate of a paired-end template a record is: the first read or the
/// second read.
#[derive(Clone, Copy, Debug, Hash, PartialEq, Eq, Structural)]
pub enum PairPosition {
    First,
    Second,
}

impl PairPosition {
    /// The position the other mate of the same template has.
    pub fn mate(self) -> (r: PairPosition)
        ensures
            r == self.spec_mate(),
    {
        match self {
            PairPosition::First => PairPosition::Second,
            PairPosition::Second => PairPosition::First,
        }
    }

    pub open spec fn spec_mate(self) -> PairPosition {
        match self {
            PairPosition::First => PairPosition::Second,
            PairPosition::Second => PairPosition::First,
        }
    }

    /// Derives the mate designation from a record's flag bits: the read-1 bit
    /// wins, then the read-2 bit; with neither set the designation cannot be
    /// determined and `None` is returned.
    pub fn try_from_flag(flag: u16) -> (r: Option<PairPosition>)
        ensures
            r == spec_pair_position(flag),
    {
        if flag & 0x40 != 0 {
            Some(PairPosition::First)
        } else if flag & 0x80 != 0 {
            Some(PairPosition::Second)
        } else {
            None
        }
    }
}

/// The mate designation a record's flag bits resolve to, if any.
pub open spec fn spec_pair_position(flag: u16) -> Option<PairPosition> {
    if flag_is_read_1(flag) {
        Some(PairPosition::First)
    } else if flag_is_read_2(flag) {
        Some(PairPosition::Second)
    } else {
        None
    }
}

/// The identity of an unmatched record in the buffer: the read name, the mate
/// designation, the record's own placement, its mate's placement, and the
/// template length.
///
/// The template length is widened to `i64` so that the mate key's negation is
/// always representable.
#[derive(Clone, Debug, Hash, PartialEq, Eq)]
pub struct RecordKey {
    pub read_name: Vec<u8>,
    pub position: PairPosition,
    pub ref_id: i32,
    pub pos: i32,
    pub next_ref_id: i32,
    pub next_pos: i32,
    pub tlen: i64,
}

/// The mathematical value of a `RecordKey`.
pub ghost struct KeyView {
    pub read_name: Seq<u8>,
    pub position: PairPosition,
    pub ref_id: i32,
    pub pos: i32,
    pub next_ref_id: i32,
    pub next_pos: i32,
    pub tlen: int,
}

impl View for RecordKey {
    type V = KeyView;

    open spec fn view(&self) -> KeyView {
        KeyView {
            read_name: self.read_name@,
            position: self.position,
            ref_id: self.ref_id,
            pos: self.pos,
            next_ref_id: self.next_ref_id,
            next_pos: self.next_pos,
            tlen: self.tlen as int,
        }
    }
}

/// The key a record is buffered under while its mate has not appeared.
pub open spec fn spec_key(r: RecordView) -> KeyView
    recommends
        spec_pair_position(r.flag) is Some,
{
    KeyView {
        read_name: r.read_name,
        position: spec_pair_position(r.flag).unwrap(),
        ref_id: r.ref_id,
        pos: r.pos,
        next_ref_id: r.next_ref_id,
        next_pos: r.next_pos,
        tlen: r.tlen as int,
    }
}

/// The key under which a record's already-buffered mate would stand: the mate
/// designation flipped, the own and mate placements swapped, and the template
/// length negated.
pub open spec fn spec_mate_key(r: RecordView) -> KeyView
    recommends
        spec_pair_position(r.flag) is Some,
{
    KeyView {
        read_name: r.read_name,
        position: spec_pair_position(r.flag).unwrap().spec_mate(),
        ref_id: r.next_ref_id,
        pos: r.next_pos,
        next_ref_id: r.ref_id,
        next_pos: r.pos,
        tlen: -(r.tlen as int),
    }
}

/// Copies a byte vector.
fn clone_bytes(v: &Vec<u8>) -> (r: Vec<u8>)
    ensures
        r@ == v@,
{
    let mut out: Vec<u8> = Vec::new();
    let mut i: usize = 0;
    while i < v.len()
        invariant
            i <= v.len(),
            out@ == v@.subrange(0, i as int),
        decreases v.len() - i,
    {
        out.push(v[i]);
        i = i + 1;
        proof {
            assert(out@ =~= v@.subrange(0, i as int));
        }
    }
    proof {
        assert(out@ =~= v@);
    }
    out
}

/// The identity key of a record whose mate designation is `position`.
fn key_with(record: &Record, position: PairPosition) -> (k: RecordKey)
    requires
        spec_pair_position(record.flag) == Some(position),
    ensures
        k@ == spec_key(record@),
{
    RecordKey {
        read_name: clone_bytes(&record.read_name),
        position,
        ref_id: record.ref_id,
        pos: record.pos,
        next_ref_id: record.next_ref_id,
        next_pos: record.next_pos,
        tlen: record.tlen as i64,
    }
}

/// The mate key of a record whose mate designation is `position`.
fn mate_key_with(record: &Record, position: PairPosition) -> (k: RecordKey)
    requires
        spec_pair_position(record.flag) == Some(position),
    ensures
        k@ == spec_mate_key(record@),
{
    RecordKey {
        read_name: clone_bytes(&record.read_name),
        position: position.mate(),
        ref_id: record.next_ref_id,
        pos: record.next_pos,
        next_ref_id: record.ref_id,
        next_pos: record.pos,
        tlen: -(record.tlen as i64),
    }
}

/// The identity key of a record, or `None` when the record's flags do not
/// resolve to a mate designation.
pub fn key(record: &Record) -> (r: Option<RecordKey>)
    ensures
        match r {
            Some(k) => spec_pair_position(record.flag) is Some && k@ == spec_key(record@),
            None => spec_pair_position(record.flag) is None,
        },
{
    match PairPosition::try_from_flag(record.flag) {
        Some(position) => Some(key_with(record, position)),
        None => None,
    }
}

/// The mate key of a record, or `None` when the record's flags do not resolve
/// to a mate designation.
pub fn mate_key(record: &Record) -> (r: Option<RecordKey>)
    ensures
        match r {
            Some(k) => spec_pair_position(record.flag) is Some && k@ == spec_mate_key(record@),
            None => spec_pair_position(record.flag) is None,
        },
{
    match PairPosition::try_from_flag(record.flag) {
        Some(position) => Some(mate_key_with(record, position)),
        None => None,
    }
}

/// The buffer entries as mathematical values, in insertion order.
pub open spec fn entry_views(s: Seq<(RecordKey, Record)>) -> Seq<(KeyView, RecordView)> {
    s.map_values(|e: (RecordKey, Record)| (e.0@, e.1@))
}

/// The mapping a sequence of key/record entries stands for; a later entry for
/// the same key wins.
pub open spec fn map_of(s: Seq<(KeyView, RecordView)>) -> Map<KeyView, RecordView>
    decreases s.len(),
{
    if s.len() == 0 {
        Map::empty()
    } else {
        map_of(s.drop_last()).insert(s.last().0, s.last().1)
    }
}

/// No two entries stand under the same key.
pub open spec fn keys_unique(s: Seq<(KeyView, RecordView)>) -> bool {
    forall|i: int, j: int| 0 <= i < j < s.len() ==> (#[trigger] s[i]).0 != (#[trigger] s[j]).0
}

/// Every entry stands under the key derived from its own record.
pub open spec fn entries_wf(s: Seq<(KeyView, RecordView)>) -> bool {
    forall|i: int|
        0 <= i < s.len() ==> spec_pair_position((#[trigger] s[i]).1.flag) is Some && s[i].0
            == spec_key(s[i].1)
}

proof fn lemma_map_of_contains(s: Seq<(KeyView, RecordView)>, k: KeyView)
    ensures
        map_of(s).contains_key(k) <==> exists|i: int| 0 <= i < s.len() && (#[trigger] s[i]).0 == k,
    decreases s.len(),
{
    if s.len() > 0 {
        lemma_map_of_contains(s.drop_last(), k);
        if s.last().0 == k {
            assert(s[s.len() - 1].0 == k);
        } else {
            if map_of(s).contains_key(k) {
                let i = choose|i: int| 0 <= i < s.drop_last().len() && (#[trigger] s.drop_last()[i]).0 == k;
                assert(s[i].0 == k);
            }
            if exists|i: int| 0 <= i < s.len() && (#[trigger] s[i]).0 == k {
                let i = choose|i: int| 0 <= i < s.len() && (#[trigger] s[i]).0 == k;
                assert(i < s.len() - 1);
                assert(s.drop_last()[i].0 == k);
            }
        }
    }
}

proof fn lemma_map_of_index(s: Seq<(KeyView, RecordView)>, i: int)
    requires
        keys_unique(s),
        0 <= i < s.len(),
    ensures
        map_of(s).contains_key(s[i].0),
        map_of(s)[s[i].0] == s[i].1,
    decreases s.len(),
{
    if i == s.len() - 1 {
    } else {
        assert(keys_unique(s.drop_last())) by {
            assert forall|a: int, b: int|
                0 <= a < b < s.drop_last().len() implies (#[trigger] s.drop_last()[a]).0 != (
            #[trigger] s.drop_last()[b]).0 by {
                assert(s[a].0 != s[b].0);
            }
        }
        lemma_map_of_index(s.drop_last(), i);
        assert(s.drop_last()[i] == s[i]);
        assert(s[i].0 != s.last().0);
    }
}

proof fn lemma_map_of_len(s: Seq<(KeyView, RecordView)>)
    requires
        keys_unique(s),
    ensures
        map_of(s).dom().finite(),
        map_of(s).dom().len() == s.len(),
    decreases s.len(),
{
    if s.len() > 0 {
        let t = s.drop_last();
        assert(keys_unique(t)) by {
            assert forall|a: int, b: int|
                0 <= a < b < t.len() implies (#[trigger] t[a]).0 != (#[trigger] t[b]).0 by {
                assert(s[a].0 != s[b].0);
            }
        }
        lemma_map_of_len(t);
        lemma_map_of_contains(t, s.last().0);
        assert(forall|i: int| 0 <= i < t.len() ==> (#[trigger] t[i]) == s[i]);
        assert(!map_of(t).contains_key(s.last().0));
        assert(map_of(s).dom() =~= map_of(t).dom().insert(s.last().0));
        vstd::set::axiom_set_insert_finite(map_of(t).dom(), s.last().0);
        vstd::set::axiom_set_insert_len(map_of(t).dom(), s.last().0);
    }
}

proof fn lemma_map_of_swap_remove(s: Seq<(KeyView, RecordView)>, i: int)
    requires
        keys_unique(s),
        0 <= i < s.len(),
    ensures
        keys_unique(s.update(i, s.last()).drop_last()),
        map_of(s.update(i, s.last()).drop_last()) == map_of(s).remove(s[i].0),
        forall|j: int|
            0 <= j < s.update(i, s.last()).drop_last().len() ==> exists|m: int|
                0 <= m < s.len() && (#[trigger] s.update(i, s.last()).drop_last()[j]) == s[m],
{
    let t = s.update(i, s.last()).drop_last();
    let k = s[i].0;
    let n = s.len() as int;
    assert(forall|j: int| 0 <= j < n - 1 && j != i ==> (#[trigger] t[j]) == s[j]);
    assert(i < n - 1 ==> t[i] == s[n - 1]);
    assert forall|j: int| 0 <= j < t.len() implies exists|m: int|
        0 <= m < s.len() && (#[trigger] t[j]) == s[m] by {
        if j == i {
            assert(t[j] == s[n - 1]);
        } else {
            assert(t[j] == s[j]);
        }
    }
    assert forall|a: int, b: int|
        0 <= a < b < t.len() implies (#[trigger] t[a]).0 != (#[trigger] t[b]).0 by {
        if a == i {
            assert(t[a] == s[n - 1] && t[b] == s[b]);
        } else if b == i {
            assert(t[a] == s[a] && t[b] == s[n - 1]);
        } else {
            assert(t[a] == s[a] && t[b] == s[b]);
        }
    }
    assert forall|k2: KeyView| #[trigger]
        map_of(t).contains_key(k2) == (map_of(s).contains_key(k2) && k2 != k) by {
        lemma_map_of_contains(t, k2);
        lemma_map_of_contains(s, k2);
        if exists|j: int| 0 <= j < t.len() && (#[trigger] t[j]).0 == k2 {
            let j = choose|j: int| 0 <= j < t.len() && (#[trigger] t[j]).0 == k2;
            if j == i {
                assert(s[n - 1].0 == k2);
                assert(i != n - 1);
                assert(k2 != k);
            } else {
                assert(s[j].0 == k2);
                assert(j != i);
                assert(k2 != k);
            }
        }
        if map_of(s).contains_key(k2) && k2 != k {
            let j = choose|j: int| 0 <= j < s.len() && (#[trigger] s[j]).0 == k2;
            assert(j != i);
            if j == n - 1 {
                assert(i < n - 1);
                assert(t[i].0 == k2);
            } else {
                assert(t[j].0 == k2);
            }
        }
    }
    assert forall|k2: KeyView| map_of(t).contains_key(k2) implies map_of(t)[k2] == map_of(s)[k2] by {
        lemma_map_of_contains(t, k2);
        let j = choose|j: int| 0 <= j < t.len() && (#[trigger] t[j]).0 == k2;
        lemma_map_of_index(t, j);
        if j == i {
            lemma_map_of_index(s, n - 1);
        } else {
            lemma_map_of_index(s, j);
        }
    }
    assert(map_of(t) =~= map_of(s).remove(k));
}

/// Finds the index of the buffered entry under `k`, if any.
fn buf_find(buf: &Vec<(RecordKey, Record)>, k: &RecordKey) -> (r: Option<usize>)
    ensures
        match r {
            Some(i) => i < buf@.len() && buf@[i as int].0@ == k@,
            None => forall|i: int| 0 <= i < buf@.len() ==> (#[trigger] buf@[i]).0@ != k@,
        },
{
    let mut i: usize = 0;
    while i < buf.len()
        invariant
            i <= buf@.len(),
            forall|j: int| 0 <= j < i ==> (#[trigger] buf@[j]).0@ != k@,
        decreases buf@.len() - i,
    {
        let entry = &buf[i];
        if key_eq(&entry.0, k) {
            return Some(i);
        }
        i = i + 1;
    }
    None
}

/// Removes and returns the record buffered under `k`, if one is there.
fn buf_remove(buf: &mut Vec<(RecordKey, Record)>, k: &RecordKey) -> (r: Option<Record>)
    requires
        keys_unique(entry_views(old(buf)@)),
        entries_wf(entry_views(old(buf)@)),
    ensures
        keys_unique(entry_views(final(buf)@)),
        entries_wf(entry_views(final(buf)@)),
        match r {
            Some(rec) => {
                &&& map_of(entry_views(old(buf)@)).contains_key(k@)
                &&& rec@ == map_of(entry_views(old(buf)@))[k@]
                &&& map_of(entry_views(final(buf)@)) == map_of(entry_views(old(buf)@)).remove(k@)
            },
            None => {
                &&& !map_of(entry_views(old(buf)@)).contains_key(k@)
                &&& final(buf)@ == old(buf)@
            },
        },
{
    proof {
        lemma_map_of_contains(entry_views(buf@), k@);
    }
    match buf_find(buf, k) {
        Some(i) => {
            let ghost s = entry_views(buf@);
            proof {
                assert(s[i as int].0 == k@);
                lemma_map_of_index(s, i as int);
                lemma_map_of_swap_remove(s, i as int);
            }
            let entry = buf.swap_remove(i);
            proof {
                let t = entry_views(buf@);
                assert(t =~= s.update(i as int, s.last()).drop_last());
                assert forall|j: int|
                    0 <= j < t.len() implies spec_pair_position((#[trigger] t[j]).1.flag) is Some
                    && t[j].0 == spec_key(t[j].1) by {
                    let m = choose|m: int| 0 <= m < s.len() && t[j] == s[m];
                    assert(spec_pair_position(s[m].1.flag) is Some && s[m].0 == spec_key(s[m].1));
                }
            }
            Some(entry.1)
        },
        None => {
            proof {
                assert forall|j: int|
                    0 <= j < entry_views(buf@).len() implies (#[trigger] entry_views(buf@)[j]).0
                    != k@ by {
                    assert(buf@[j].0@ != k@);
                }
            }
            None
        },
    }
}

/// Buffers `rec` under `k`, replacing any entry already under that key.
fn buf_insert(buf: &mut Vec<(RecordKey, Record)>, k: RecordKey, rec: Record)
    requires
        keys_unique(entry_views(old(buf)@)),
        entries_wf(entry_views(old(buf)@)),
        spec_pair_position(rec.flag) is Some,
        k@ == spec_key(rec@),
    ensures
        keys_unique(entry_views(final(buf)@)),
        entries_wf(entry_views(final(buf)@)),
        map_of(entry_views(final(buf)@)) == map_of(entry_views(old(buf)@)).insert(k@, rec@),
{
    let ghost s0 = entry_views(buf@);
    match buf_find(buf, &k) {
        Some(i) => {
            proof {
                assert(s0[i as int].0 == k@);
                lemma_map_of_swap_remove(s0, i as int);
            }
            let _replaced = buf.swap_remove(i);
            let ghost s1 = entry_views(buf@);
            proof {
                assert(s1 =~= s0.update(i as int, s0.last()).drop_last());
                assert forall|j: int|
                    0 <= j < s1.len() implies spec_pair_position((#[trigger] s1[j]).1.flag) is Some
                    && s1[j].0 == spec_key(s1[j].1) by {
                    let m = choose|m: int| 0 <= m < s0.len() && s1[j] == s0[m];
                    assert(spec_pair_position(s0[m].1.flag) is Some && s0[m].0 == spec_key(s0[m].1));
                }
                lemma_map_of_contains(s1, k@);
            }
            buf.push((k, rec));
            proof {
                let s2 = entry_views(buf@);
                assert(s2 =~= s1.push((k@, rec@)));
                assert(s2.drop_last() =~= s1);
                assert(map_of(s2) == map_of(s1).insert(k@, rec@));
                assert(map_of(s2) =~= map_of(s0).insert(k@, rec@));
                assert forall|a: int, b: int|
                    0 <= a < b < s2.len() implies (#[trigger] s2[a]).0 != (#[trigger] s2[b]).0 by {
                    if b == s2.len() - 1 {
                        assert(s1[a].0 != k@);
                    } else {
                        assert(s2[a] == s1[a] && s2[b] == s1[b]);
                    }
                }
            }
        },
        None => {
            proof {
                lemma_map_of_contains(s0, k@);
                assert forall|j: int| 0 <= j < s0.len() implies (#[trigger] s0[j]).0 != k@ by {
                    assert(buf@[j].0@ != k@);
                }
            }
            buf.push((k, rec));
            proof {
                let s2 = entry_views(buf@);
                assert(s2 =~= s0.push((k@, rec@)));
                assert(s2.drop_last() =~= s0);
                assert(map_of(s2) == map_of(s0).insert(k@, rec@));
                assert forall|a: int, b: int|
                    0 <= a < b < s2.len() implies (#[trigger] s2[a]).0 != (#[trigger] s2[b]).0 by {
                    if b == s2.len() - 1 {
                        assert(s0[a].0 != k@);
                    } else {
                        assert(s2[a] == s0[a] && s2[b] == s0[b]);
                    }
                }
            }
        },
    }
}

/// Whether two keys hold the same identity.
fn key_eq(a: &RecordKey, b: &RecordKey) -> (r: bool)
    ensures
        r == (a@ == b@),
{
    let names_equal = a.read_name == b.read_name;
    proof {
        if a.read_name@ =~= b.read_name@ {
            assert(a.read_name@ == b.read_name@);
        }
    }
    let r = names_equal && a.position == b.position && a.ref_id == b.ref_id && a.pos == b.pos
        && a.next_ref_id == b.next_ref_id && a.next_pos == b.next_pos && a.tlen == b.tlen;
    proof {
        if r {
            assert(a@ =~= b@);
        }
    }
    r
}

/// A per-item failure the engine hands to its consumer; the stream goes on
/// after either kind.
#[derive(Clone, Debug, PartialEq, Eq)]
pub enum PairingError {
    /// A decode failure forwarded from the upstream source.
    Decode(DecodeError),
    /// A record whose flags resolve to no mate designation; the record is
    /// handed back untouched and is neither buffered nor paired.
    Designation(Record),
}

/// The mathematical value of a `PairingError`.
pub ghost enum PairingErrorView {
    Decode(Seq<char>),
    Designation(RecordView),
}

impl View for PairingError {
    type V = PairingErrorView;

    open spec fn view(&self) -> PairingErrorView {
        match self {
            PairingError::Decode(e) => PairingErrorView::Decode(e.message@),
            PairingError::Designation(r) => PairingErrorView::Designation(r@),
        }
    }
}

/// The mathematical value of one input item: a decoded record or the message
/// of a decode failure.
pub open spec fn item_view(it: Result<Record, DecodeError>) -> Result<RecordView, Seq<char>> {
    match it {
        Ok(r) => Ok(r@),
        Err(e) => Err(e.message@),
    }
}

/// The mathematical values of a sequence of input items, in order.
pub open spec fn items_view(s: Seq<Result<Record, DecodeError>>) -> Seq<
    Result<RecordView, Seq<char>>,
> {
    s.map_values(|it: Result<Record, DecodeError>| item_view(it))
}

/// The mathematical value of what one call for the next pair returns.
pub open spec fn output_view(out: Option<Result<(Record, Record), PairingError>>) -> Option<
    Result<(RecordView, RecordView), PairingErrorView>,
> {
    match out {
        None => None,
        Some(Ok((a, b))) => Some(Ok((a@, b@))),
        Some(Err(e)) => Some(Err(e@)),
    }
}

/// The effect of one call for the next pair: what it returns, the input items
/// it leaves unread, and the buffer it leaves behind.
pub ghost struct Step {
    pub output: Option<Result<(RecordView, RecordView), PairingErrorView>>,
    pub rest: Seq<Result<RecordView, Seq<char>>>,
    pub buffer: Map<KeyView, RecordView>,
}

/// How one call for the next pair behaves on the unread items and the buffer.
/// Items are pulled in order until one yields a result: an exhausted source
/// ends the stream; a decode failure is forwarded; with `primary_only` set a
/// secondary or supplementary record is skipped; a record without a mate
/// designation is handed back as a failure; a record whose mate key hits the
/// buffer completes that entry as a (first, second) pair; any other record is
/// buffered under its own key, replacing an entry already under that key.
pub open spec fn spec_step(
    items: Seq<Result<RecordView, Seq<char>>>,
    buffer: Map<KeyView, RecordView>,
    primary_only: bool,
) -> Step
    decreases items.len(),
{
    if items.len() == 0 {
        Step { output: None, rest: items, buffer }
    } else {
        let rest = items.drop_first();
        match items[0] {
            Err(message) => Step {
                output: Some(Err(PairingErrorView::Decode(message))),
                rest,
                buffer,
            },
            Ok(r) => {
                if primary_only && flag_is_nonprimary(r.flag) {
                    spec_step(rest, buffer, primary_only)
                } else if spec_pair_position(r.flag) is None {
                    Step { output: Some(Err(PairingErrorView::Designation(r))), rest, buffer }
                } else {
                    let mk = spec_mate_key(r);
                    if buffer.contains_key(mk) {
                        let mate = buffer[mk];
                        let pair = if mk.position == PairPosition::First {
                            (mate, r)
                        } else {
                            (r, mate)
                        };
                        Step { output: Some(Ok(pair)), rest, buffer: buffer.remove(mk) }
                    } else {
                        spec_step(rest, buffer.insert(spec_key(r), r), primary_only)
                    }
                }
            },
        }
    }
}

/// The pairing engine: pulls decoded records one at a time, buffers each
/// record whose mate has not appeared, and emits a (first, second) pair as
/// soon as both mates have been seen.
pub struct RecordPairs {
    records: Vec<Result<Record, DecodeError>>,
    buf: Vec<(RecordKey, Record)>,
    primary_only: bool,
}

impl RecordPairs {
    /// The input items not yet pulled, in order.
    pub closed spec fn pending(self) -> Seq<Result<RecordView, Seq<char>>> {
        items_view(self.records@)
    }

    /// The buffered unmatched records, keyed by their identity.
    pub closed spec fn buffer(self) -> Map<KeyView, RecordView> {
        map_of(entry_views(self.buf@))
    }

    /// Whether secondary and supplementary records are excluded.
    pub closed spec fn filtering(self) -> bool {
        self.primary_only
    }

    /// The engine's internal invariant: buffered entries have pairwise
    /// distinct keys, and each stands under the key derived from its record.
    pub closed spec fn wf(self) -> bool {
        keys_unique(entry_views(self.buf@)) && entries_wf(entry_views(self.buf@))
    }

    pub fn new(records: Vec<Result<Record, DecodeError>>, primary_only: bool) -> (p: RecordPairs)
        ensures
            p.wf(),
            p.pending() == items_view(records@),
            p.buffer() == Map::<KeyView, RecordView>::empty(),
            p.filtering() == primary_only,
    {
        let p = RecordPairs { records, buf: Vec::new(), primary_only };
        proof {
            assert(entry_views(p.buf@) =~= Seq::<(KeyView, RecordView)>::empty());
        }
        p
    }

    /// Pulls input items until a pair is completed, a failure must be
    /// forwarded, or the source is exhausted; `None` means exhausted.
    pub fn next_pair(&mut self) -> (out: Option<Result<(Record, Record), PairingError>>)
        requires
            old(self).wf(),
        ensures
            final(self).wf(),
            final(self).filtering() == old(self).filtering(),
            ({
                let s = spec_step(old(self).pending(), old(self).buffer(), old(self).filtering());
                &&& final(self).pending() == s.rest
                &&& final(self).buffer() == s.buffer
                &&& output_view(out) == s.output
            }),
    {
        loop
            invariant
                self.wf(),
                self.primary_only == old(self).primary_only,
                spec_step(self.pending(), self.buffer(), self.primary_only) == spec_step(
                    old(self).pending(),
                    old(self).buffer(),
                    old(self).primary_only,
                ),
            decreases self.records@.len(),
        {
            let ghost pending0 = self.pending();
            if self.records.len() == 0 {
                return None;
            }
            let item = self.records.remove(0);
            proof {
                assert(self.pending() =~= pending0.drop_first());
                assert(pending0[0] == item_view(item));
            }
            match item {
                Err(e) => {
                    return Some(Err(PairingError::Decode(e)));
                },
                Ok(record) => {
                    if self.primary_only && record.is_nonprimary() {
                        continue;
                    }
                    match PairPosition::try_from_flag(record.flag) {
                        None => {
                            return Some(Err(PairingError::Designation(record)));
                        },
                        Some(position) => {
                            let mk = mate_key_with(&record, position);
                            match buf_remove(&mut self.buf, &mk) {
                                Some(mate) => {
                                    let pair = match mk.position {
                                        PairPosition::First => (mate, record),
                                        PairPosition::Second => (record, mate),
                                    };
                                    return Some(Ok(pair));
                                },
                                None => {
                                    let k = key_with(&record, position);
                                    buf_insert(&mut self.buf, k, record);
                                },
                            }
                        },
                    }
                },
            }
        }
    }

    /// The number of records currently buffered without a mate; once the
    /// source is exhausted this is the singleton count a caller may report.
    pub fn buffered_count(&self) -> (n: usize)
        requires
            self.wf(),
        ensures
            n == self.buffer().len(),
    {
        proof {
            lemma_map_of_len(entry_views(self.buf@));
            assert(entry_views(self.buf@).len() == self.buf@.len());
        }
        self.buf.len()
    }

    /// Removes every buffered record and hands them out for separate
    /// handling; the buffer is empty afterwards, so a second drain right
    /// after yields nothing.
    pub fn singletons(&mut self) -> (s: Singletons)
        requires
            old(self).wf(),
        ensures
            final(self).wf(),
            final(self).buffer() == Map::<KeyView, RecordView>::empty(),
            final(self).pending() == old(self).pending(),
            final(self).filtering() == old(self).filtering(),
            s.pending().len() == old(self).buffer().len(),
            forall|k: KeyView| #[trigger]
                old(self).buffer().contains_key(k) ==> s.pending().contains(old(self).buffer()[k]),
            forall|i: int|
                0 <= i < s.pending().len() ==> {
                    let r = #[trigger] s.pending()[i];
                    &&& old(self).buffer().contains_key(spec_key(r))
                    &&& old(self).buffer()[spec_key(r)] == r
                },
            forall|i: int, j: int|
                0 <= i < j < s.pending().len() ==> s.pending()[i] != s.pending()[j],
    {
        let ghost s0 = entry_views(self.buf@);
        let mut drained: Vec<Record> = Vec::new();
        while self.buf.len() > 0
            invariant
                self.primary_only == old(self).primary_only,
                self.records@ == old(self).records@,
                self.buf@.len() <= s0.len(),
                entry_views(self.buf@) == s0.subrange(0, self.buf@.len() as int),
                drained@.map_values(|r: Record| r@) == s0.subrange(
                    self.buf@.len() as int,
                    s0.len() as int,
                ).map_values(|e: (KeyView, RecordView)| e.1).reverse(),
            decreases self.buf@.len(),
        {
            let ghost before = entry_views(self.buf@);
            let ghost drained_before = drained@.map_values(|r: Record| r@);
            let entry = self.buf.pop().unwrap();
            drained.push(entry.1);
            proof {
                let n = self.buf@.len() as int;
                let total = s0.len() as int;
                assert(entry_views(self.buf@) =~= s0.subrange(0, n));
                assert((entry.0@, entry.1@) == before[n]);
                assert(before[n] == s0[n]);
                let lhs = drained@.map_values(|r: Record| r@);
                let rhs = s0.subrange(n, total).map_values(
                    |e: (KeyView, RecordView)| e.1,
                ).reverse();
                assert(lhs =~= drained_before.push(entry.1@));
                assert forall|i: int| 0 <= i < rhs.len() implies lhs[i] == rhs[i] by {
                    let tail = s0.subrange(n, total).map_values(|e: (KeyView, RecordView)| e.1);
                    assert(rhs[i] == tail[total - n - 1 - i]);
                    assert(tail[total - n - 1 - i] == s0[total - 1 - i].1);
                    if i < rhs.len() - 1 {
                        let old_tail = s0.subrange(n + 1, total).map_values(
                            |e: (KeyView, RecordView)| e.1,
                        );
                        assert(lhs[i] == drained_before[i]);
                        assert(drained_before[i] == old_tail.reverse()[i]);
                        assert(old_tail.reverse()[i] == old_tail[total - n - 2 - i]);
                        assert(old_tail[total - n - 2 - i] == s0[total - 1 - i].1);
                    } else {
                        assert(lhs[i] == entry.1@);
                        assert(s0[total - 1 - i].1 == s0[n].1);
                    }
                }
                assert(lhs =~= rhs);
            }
        }
        let out = Singletons { records: drained };
        proof {
            assert(entry_views(self.buf@) =~= Seq::<(KeyView, RecordView)>::empty());
            assert(map_of(entry_views(self.buf@)) =~= Map::<KeyView, RecordView>::empty());
            let recs = s0.map_values(|e: (KeyView, RecordView)| e.1);
            assert(out.pending() =~= recs) by {
                assert(drained@.map_values(|r: Record| r@) =~= recs.reverse());
            }
            lemma_map_of_len(s0);
            assert forall|k: KeyView| #[trigger]
                map_of(s0).contains_key(k) implies out.pending().contains(map_of(s0)[k]) by {
                lemma_map_of_contains(s0, k);
                let i = choose|i: int| 0 <= i < s0.len() && (#[trigger] s0[i]).0 == k;
                lemma_map_of_index(s0, i);
                assert(recs[i] == map_of(s0)[k]);
            }
            assert forall|i: int| 0 <= i < out.pending().len() implies {
                let r = #[trigger] out.pending()[i];
                &&& map_of(s0).contains_key(spec_key(r))
                &&& map_of(s0)[spec_key(r)] == r
            } by {
                assert(s0[i].0 == spec_key(s0[i].1));
                lemma_map_of_index(s0, i);
            }
            assert forall|i: int, j: int|
                0 <= i < j < out.pending().len() implies out.pending()[i] != out.pending()[j] by {
                assert(s0[i].0 == spec_key(s0[i].1));
                assert(s0[j].0 == spec_key(s0[j].1));
                assert(s0[i].0 != s0[j].0);
            }
        }
        out
    }
}

/// What one input item leaves in the buffer.
pub open spec fn item_buffer(
    item: Result<RecordView, Seq<char>>,
    buffer: Map<KeyView, RecordView>,
    primary_only: bool,
) -> Map<KeyView, RecordView> {
    match item {
        Err(_) => buffer,
        Ok(r) => {
            if primary_only && flag_is_nonprimary(r.flag) {
                buffer
            } else if spec_pair_position(r.flag) is None {
                buffer
            } else if buffer.contains_key(spec_mate_key(r)) {
                buffer.remove(spec_mate_key(r))
            } else {
                buffer.insert(spec_key(r), r)
            }
        },
    }
}

/// What one input item adds to the stream of results.
pub open spec fn item_outputs(
    item: Result<RecordView, Seq<char>>,
    buffer: Map<KeyView, RecordView>,
    primary_only: bool,
) -> Seq<Result<(RecordView, RecordView), PairingErrorView>> {
    match item {
        Err(message) => seq![Err(PairingErrorView::Decode(message))],
        Ok(r) => {
            if primary_only && flag_is_nonprimary(r.flag) {
                Seq::empty()
            } else if spec_pair_position(r.flag) is None {
                seq![Err(PairingErrorView::Designation(r))]
            } else if buffer.contains_key(spec_mate_key(r)) {
                let mk = spec_mate_key(r);
                let mate = buffer[mk];
                if mk.position == PairPosition::First {
                    seq![Ok((mate, r))]
                } else {
                    seq![Ok((r, mate))]
                }
            } else {
                Seq::empty()
            }
        },
    }
}

/// Every result the engine produces for `items`, in order, starting from
/// `buffer`.
pub open spec fn run_outputs(
    items: Seq<Result<RecordView, Seq<char>>>,
    buffer: Map<KeyView, RecordView>,
    primary_only: bool,
) -> Seq<Result<(RecordView, RecordView), PairingErrorView>>
    decreases items.len(),
{
    if items.len() == 0 {
        Seq::empty()
    } else {
        item_outputs(items[0], buffer, primary_only) + run_outputs(
            items.drop_first(),
            item_buffer(items[0], buffer, primary_only),
            primary_only,
        )
    }
}

/// The buffer left once the engine has consumed all of `items`, starting from
/// `buffer`.
pub open spec fn run_buffer(
    items: Seq<Result<RecordView, Seq<char>>>,
    buffer: Map<KeyView, RecordView>,
    primary_only: bool,
) -> Map<KeyView, RecordView>
    decreases items.len(),
{
    if items.len() == 0 {
        buffer
    } else {
        run_buffer(items.drop_first(), item_buffer(items[0], buffer, primary_only), primary_only)
    }
}

/// One call for the next pair agrees with the whole-stream semantics: its
/// result is the first of `run_outputs`, or the end of the stream when
/// `run_outputs` is empty, and repeated calls leave `run_buffer` behind.
pub proof fn lemma_step_run(
    items: Seq<Result<RecordView, Seq<char>>>,
    buffer: Map<KeyView, RecordView>,
    primary_only: bool,
)
    ensures
        ({
            let s = spec_step(items, buffer, primary_only);
            match s.output {
                None => {
                    &&& run_outputs(items, buffer, primary_only) == Seq::<
                        Result<(RecordView, RecordView), PairingErrorView>,
                    >::empty()
                    &&& run_buffer(items, buffer, primary_only) == s.buffer
                    &&& s.rest.len() == 0
                },
                Some(o) => {
                    &&& run_outputs(items, buffer, primary_only) == seq![o] + run_outputs(
                        s.rest,
                        s.buffer,
                        primary_only,
                    )
                    &&& run_buffer(items, buffer, primary_only) == run_buffer(
                        s.rest,
                        s.buffer,
                        primary_only,
                    )
                },
            }
        }),
    decreases items.len(),
{
    if items.len() > 0 {
        let rest = items.drop_first();
        match items[0] {
            Err(message) => {
                assert(run_outputs(items, buffer, primary_only) =~= seq![
                    Err::<(RecordView, RecordView), PairingErrorView>(
                        PairingErrorView::Decode(message),
                    ),
                ] + run_outputs(rest, buffer, primary_only));
            },
            Ok(r) => {
                if primary_only && flag_is_nonprimary(r.flag) {
                    lemma_step_run(rest, buffer, primary_only);
                    assert(run_outputs(items, buffer, primary_only) =~= run_outputs(
                        rest,
                        buffer,
                        primary_only,
                    ));
                } else if spec_pair_position(r.flag) is None {
                    assert(run_outputs(items, buffer, primary_only) =~= seq![
                        Err::<(RecordView, RecordView), PairingErrorView>(
                            PairingErrorView::Designation(r),
                        ),
                    ] + run_outputs(rest, buffer, primary_only));
                } else if buffer.contains_key(spec_mate_key(r)) {
                    assert(run_outputs(items, buffer, primary_only) =~= item_outputs(
                        items[0],
                        buffer,
                        primary_only,
                    ) + run_outputs(rest, buffer.remove(spec_mate_key(r)), primary_only));
                } else {
                    lemma_step_run(rest, buffer.insert(spec_key(r), r), primary_only);
                    assert(run_outputs(items, buffer, primary_only) =~= run_outputs(
                        rest,
                        buffer.insert(spec_key(r), r),
                        primary_only,
                    ));
                }
            },
        }
    }
}

/// Consuming a single item is one item step.
pub proof fn lemma_run_one(
    item: Result<RecordView, Seq<char>>,
    buffer: Map<KeyView, RecordView>,
    primary_only: bool,
)
    ensures
        run_outputs(seq![item], buffer, primary_only) == item_outputs(item, buffer, primary_only),
        run_buffer(seq![item], buffer, primary_only) == item_buffer(item, buffer, primary_only),
{
    let one: Seq<Result<RecordView, Seq<char>>> = seq![item];
    assert(one.drop_first() =~= Seq::<Result<RecordView, Seq<char>>>::empty());
    assert(run_buffer(one.drop_first(), item_buffer(item, buffer, primary_only), primary_only)
        == item_buffer(item, buffer, primary_only));
    assert(run_outputs(one.drop_first(), item_buffer(item, buffer, primary_only), primary_only)
        =~= Seq::<Result<(RecordView, RecordView), PairingErrorView>>::empty());
    assert(run_outputs(one, buffer, primary_only) =~= item_outputs(item, buffer, primary_only));
}

/// Consuming a concatenation is consuming one part after the other.
pub proof fn lemma_run_append(
    s1: Seq<Result<RecordView, Seq<char>>>,
    s2: Seq<Result<RecordView, Seq<char>>>,
    buffer: Map<KeyView, RecordView>,
    primary_only: bool,
)
    ensures
        run_outputs(s1 + s2, buffer, primary_only) == run_outputs(s1, buffer, primary_only)
            + run_outputs(s2, run_buffer(s1, buffer, primary_only), primary_only),
        run_buffer(s1 + s2, buffer, primary_only) == run_buffer(
            s2,
            run_buffer(s1, buffer, primary_only),
            primary_only,
        ),
    decreases s1.len(),
{
    if s1.len() == 0 {
        assert(s1 + s2 =~= s2);
        assert(run_outputs(s1, buffer, primary_only) + run_outputs(s2, buffer, primary_only)
            =~= run_outputs(s2, buffer, primary_only));
    } else {
        let b1 = item_buffer(s1[0], buffer, primary_only);
        assert((s1 + s2).drop_first() =~= s1.drop_first() + s2);
        lemma_run_append(s1.drop_first(), s2, b1, primary_only);
        assert(run_outputs(s1 + s2, buffer, primary_only) =~= run_outputs(s1, buffer, primary_only)
            + run_outputs(s2, run_buffer(s1, buffer, primary_only), primary_only));
    }
}

/// Every buffered record stands under the key derived from itself.
pub open spec fn buffer_wf(buffer: Map<KeyView, RecordView>) -> bool {
    forall|k: KeyView| #[trigger]
        buffer.contains_key(k) ==> spec_pair_position(buffer[k].flag) is Some && spec_key(
            buffer[k],
        ) == k
}

impl RecordPairs {
    /// The engine's invariant seen from outside: its buffer maps each key to
    /// a record that key was derived from.
    pub proof fn lemma_wf_buffer(self)
        requires
            self.wf(),
        ensures
            buffer_wf(self.buffer()),
    {
        let s = entry_views(self.buf@);
        assert forall|k: KeyView| #[trigger]
            self.buffer().contains_key(k) implies spec_pair_position(self.buffer()[k].flag) is Some
            && spec_key(self.buffer()[k]) == k by {
            lemma_map_of_contains(s, k);
            let i = choose|i: int| 0 <= i < s.len() && (#[trigger] s[i]).0 == k;
            lemma_map_of_index(s, i);
        }
    }
}

/// One item preserves buffer well-formedness.
pub proof fn lemma_item_buffer_wf(
    item: Result<RecordView, Seq<char>>,
    buffer: Map<KeyView, RecordView>,
    primary_only: bool,
)
    requires
        buffer_wf(buffer),
    ensures
        buffer_wf(item_buffer(item, buffer, primary_only)),
{
}

/// A whole stream preserves buffer well-formedness.
pub proof fn lemma_run_buffer_wf(
    items: Seq<Result<RecordView, Seq<char>>>,
    buffer: Map<KeyView, RecordView>,
    primary_only: bool,
)
    requires
        buffer_wf(buffer),
    ensures
        buffer_wf(run_buffer(items, buffer, primary_only)),
    decreases items.len(),
{
    if items.len() > 0 {
        lemma_item_buffer_wf(items[0], buffer, primary_only);
        lemma_run_buffer_wf(
            items.drop_first(),
            item_buffer(items[0], buffer, primary_only),
            primary_only,
        );
    }
}

/// Two records are true mates: their designations are opposite, they share a
/// read name, each one's own placement is the other's mate placement, and
/// their template lengths are negations of each other.
pub open spec fn spec_mates(x: RecordView, y: RecordView) -> bool {
    &&& spec_pair_position(x.flag) is Some
    &&& spec_pair_position(y.flag) == Some(spec_pair_position(x.flag).unwrap().spec_mate())
    &&& y.read_name == x.read_name
    &&& y.ref_id == x.next_ref_id
    &&& y.pos == x.next_pos
    &&& y.next_ref_id == x.ref_id
    &&& y.next_pos == x.pos
    &&& y.tlen as int == -(x.tlen as int)
}

/// For true mates, each record's mate key is the other's identity key, in
/// either direction.
pub proof fn lemma_mate_key_symmetry(x: RecordView, y: RecordView)
    requires
        spec_mates(x, y),
    ensures
        spec_mates(y, x),
        spec_mate_key(y) == spec_key(x),
        spec_mate_key(x) == spec_key(y),
{
}

/// Whether processing `item` could read or write the buffer entry under `k`.
pub open spec fn item_touches(
    item: Result<RecordView, Seq<char>>,
    k: KeyView,
    primary_only: bool,
) -> bool {
    match item {
        Err(_) => false,
        Ok(r) => {
            if primary_only && flag_is_nonprimary(r.flag) {
                false
            } else if spec_pair_position(r.flag) is None {
                false
            } else {
                spec_key(r) == k || spec_mate_key(r) == k
            }
        },
    }
}

/// A buffered record whose key no later input item touches is never emitted
/// as part of a pair — no emitted pair holds a record with its key — and is
/// still buffered, unchanged, when the input is exhausted, so it is drained
/// exactly once as a singleton.
pub proof fn lemma_unmatched_record_preserved(
    items: Seq<Result<RecordView, Seq<char>>>,
    buffer: Map<KeyView, RecordView>,
    primary_only: bool,
    k: KeyView,
)
    requires
        buffer_wf(buffer),
        buffer.contains_key(k),
        forall|i: int|
            0 <= i < items.len() ==> !item_touches(#[trigger] items[i], k, primary_only),
    ensures
        run_buffer(items, buffer, primary_only).contains_key(k),
        run_buffer(items, buffer, primary_only)[k] == buffer[k],
        forall|j: int|
            0 <= j < run_outputs(items, buffer, primary_only).len()
                ==> match #[trigger] run_outputs(items, buffer, primary_only)[j] {
                Ok((a, b)) => spec_key(a) != k && spec_key(b) != k,
                Err(_) => true,
            },
    decreases items.len(),
{
    if items.len() > 0 {
        let b1 = item_buffer(items[0], buffer, primary_only);
        let outs0 = item_outputs(items[0], buffer, primary_only);
        assert(!item_touches(items[0], k, primary_only));
        assert(b1.contains_key(k) && b1[k] == buffer[k]);
        assert forall|j: int| 0 <= j < outs0.len() implies match #[trigger] outs0[j] {
            Ok((a, b)) => spec_key(a) != k && spec_key(b) != k,
            Err(_) => true,
        } by {
            match items[0] {
                Err(_) => {},
                Ok(r) => {
                    if !(primary_only && flag_is_nonprimary(r.flag)) && spec_pair_position(
                        r.flag,
                    ) is Some && buffer.contains_key(spec_mate_key(r)) {
                        let mk = spec_mate_key(r);
                        assert(buffer.contains_key(mk));
                        assert(spec_key(buffer[mk]) == mk);
                        assert(mk != k && spec_key(r) != k);
                    }
                },
            }
        }
        lemma_item_buffer_wf(items[0], buffer, primary_only);
        assert forall|i: int|
            0 <= i < items.drop_first().len() implies !item_touches(
            #[trigger] items.drop_first()[i],
            k,
            primary_only,
        ) by {
            assert(items.drop_first()[i] == items[i + 1]);
        }
        lemma_unmatched_record_preserved(items.drop_first(), b1, primary_only, k);
        let outs = run_outputs(items, buffer, primary_only);
        let outs_rest = run_outputs(items.drop_first(), b1, primary_only);
        assert forall|j: int| 0 <= j < outs.len() implies match #[trigger] outs[j] {
            Ok((a, b)) => spec_key(a) != k && spec_key(b) != k,
            Err(_) => true,
        } by {
            if j < outs0.len() {
                assert(outs[j] == outs0[j]);
            } else {
                assert(outs[j] == outs_rest[j - outs0.len()]);
            }
        }
    }
}

/// With filtering on, a secondary or supplementary record contributes
/// nothing anywhere in the stream: the results and the final buffer are those
/// of the stream without it, so it is neither paired nor drained.
pub proof fn lemma_nonprimary_excluded(
    s1: Seq<Result<RecordView, Seq<char>>>,
    s2: Seq<Result<RecordView, Seq<char>>>,
    r: RecordView,
    buffer: Map<KeyView, RecordView>,
)
    requires
        flag_is_nonprimary(r.flag),
    ensures
        run_outputs(s1 + seq![Ok(r)] + s2, buffer, true) == run_outputs(s1 + s2, buffer, true),
        run_buffer(s1 + seq![Ok(r)] + s2, buffer, true) == run_buffer(s1 + s2, buffer, true),
{
    let mid: Seq<Result<RecordView, Seq<char>>> = seq![Ok(r)];
    let b1 = run_buffer(s1, buffer, true);
    lemma_run_append(s1, mid + s2, buffer, true);
    assert(s1 + mid + s2 =~= s1 + (mid + s2));
    lemma_run_append(mid, s2, b1, true);
    lemma_run_one(mid[0], b1, true);
    assert(mid =~= seq![mid[0]]);
    assert(item_buffer(mid[0], b1, true) == b1);
    assert(run_outputs(mid, b1, true) =~= Seq::<
        Result<(RecordView, RecordView), PairingErrorView>,
    >::empty());
    lemma_run_append(s1, s2, buffer, true);
    assert(run_outputs(s1 + mid + s2, buffer, true) =~= run_outputs(s1 + s2, buffer, true));
}

/// A decode failure is forwarded exactly once, in place, and touches nothing
/// else: the results around it and the final buffer are those of the stream
/// without it.
pub proof fn lemma_decode_failure_isolated(
    s1: Seq<Result<RecordView, Seq<char>>>,
    s2: Seq<Result<RecordView, Seq<char>>>,
    message: Seq<char>,
    buffer: Map<KeyView, RecordView>,
    primary_only: bool,
)
    ensures
        run_outputs(s1 + seq![Err(message)] + s2, buffer, primary_only) == run_outputs(
            s1,
            buffer,
            primary_only,
        ) + seq![Err::<(RecordView, RecordView), PairingErrorView>(
            PairingErrorView::Decode(message),
        )] + run_outputs(s2, run_buffer(s1, buffer, primary_only), primary_only),
        run_buffer(s1 + seq![Err(message)] + s2, buffer, primary_only) == run_buffer(
            s1 + s2,
            buffer,
            primary_only,
        ),
{
    let mid: Seq<Result<RecordView, Seq<char>>> = seq![Err(message)];
    let b1 = run_buffer(s1, buffer, primary_only);
    lemma_run_append(s1, mid + s2, buffer, primary_only);
    assert(s1 + mid + s2 =~= s1 + (mid + s2));
    lemma_run_append(mid, s2, b1, primary_only);
    lemma_run_one(mid[0], b1, primary_only);
    assert(mid =~= seq![mid[0]]);
    assert(item_buffer(mid[0], b1, primary_only) == b1);
    assert(run_outputs(mid, b1, primary_only) =~= seq![Err::<
        (RecordView, RecordView),
        PairingErrorView,
    >(PairingErrorView::Decode(message))]);
    lemma_run_append(s1, s2, buffer, primary_only);
    assert(run_outputs(s1 + mid + s2, buffer, primary_only) =~= run_outputs(
        s1,
        buffer,
        primary_only,
    ) + seq![Err::<(RecordView, RecordView), PairingErrorView>(
        PairingErrorView::Decode(message),
    )] + run_outputs(s2, b1, primary_only));
}

/// Two true mates are emitted as exactly one completed pair, ordered (first,
/// second) whatever their arrival order, however many unrelated items stand
/// between them: the earlier mate is buffered, every item in between leaves
/// its entry alone and yields no pair holding its key, and the later mate
/// completes it.
pub proof fn lemma_pair_completed(
    x: RecordView,
    y: RecordView,
    mid: Seq<Result<RecordView, Seq<char>>>,
    buffer: Map<KeyView, RecordView>,
    primary_only: bool,
)
    requires
        buffer_wf(buffer),
        spec_mates(x, y),
        primary_only ==> !flag_is_nonprimary(x.flag) && !flag_is_nonprimary(y.flag),
        !buffer.contains_key(spec_mate_key(x)),
        forall|i: int|
            0 <= i < mid.len() ==> !item_touches(#[trigger] mid[i], spec_key(x), primary_only),
    ensures
        ({
            let inserted = buffer.insert(spec_key(x), x);
            let mid_outs = run_outputs(mid, inserted, primary_only);
            let pair = if spec_pair_position(x.flag) == Some(PairPosition::First) {
                (x, y)
            } else {
                (y, x)
            };
            &&& run_outputs(seq![Ok(x)] + mid + seq![Ok(y)], buffer, primary_only) == mid_outs
                + seq![Ok::<(RecordView, RecordView), PairingErrorView>(pair)]
            &&& run_buffer(seq![Ok(x)] + mid + seq![Ok(y)], buffer, primary_only) == run_buffer(
                mid,
                inserted,
                primary_only,
            ).remove(spec_key(x))
            &&& forall|j: int|
                0 <= j < mid_outs.len() ==> match #[trigger] mid_outs[j] {
                    Ok((a, b)) => spec_key(a) != spec_key(x) && spec_key(b) != spec_key(x),
                    Err(_) => true,
                }
        }),
{
    lemma_mate_key_symmetry(x, y);
    let k = spec_key(x);
    let first: Seq<Result<RecordView, Seq<char>>> = seq![Ok(x)];
    let last: Seq<Result<RecordView, Seq<char>>> = seq![Ok(y)];
    let inserted = buffer.insert(k, x);
    // the first mate is buffered under its own key
    lemma_run_one(first[0], buffer, primary_only);
    assert(first =~= seq![first[0]]);
    assert(item_buffer(first[0], buffer, primary_only) == inserted);
    assert(item_outputs(first[0], buffer, primary_only) =~= Seq::<
        Result<(RecordView, RecordView), PairingErrorView>,
    >::empty());
    assert(run_buffer(first, buffer, primary_only) == inserted);
    assert(run_outputs(first, buffer, primary_only) =~= Seq::<
        Result<(RecordView, RecordView), PairingErrorView>,
    >::empty());
    // the items between the mates leave that entry alone
    assert(buffer_wf(inserted));
    assert(inserted.contains_key(k) && inserted[k] == x);
    lemma_unmatched_record_preserved(mid, inserted, primary_only, k);
    let mid_buf = run_buffer(mid, inserted, primary_only);
    lemma_run_buffer_wf(mid, inserted, primary_only);
    // the second mate finds the first in the buffer and completes the pair
    assert(mid_buf.contains_key(spec_mate_key(y)) && mid_buf[spec_mate_key(y)] == x);
    let pair = if spec_pair_position(x.flag) == Some(PairPosition::First) {
        (x, y)
    } else {
        (y, x)
    };
    assert(spec_mate_key(y).position == spec_pair_position(x.flag).unwrap());
    assert(item_outputs(last[0], mid_buf, primary_only) =~= seq![Ok::<
        (RecordView, RecordView),
        PairingErrorView,
    >(pair)]);
    assert(item_buffer(last[0], mid_buf, primary_only) == mid_buf.remove(k));
    lemma_run_one(last[0], mid_buf, primary_only);
    assert(last =~= seq![last[0]]);
    assert(run_outputs(last, mid_buf, primary_only) =~= seq![Ok::<
        (RecordView, RecordView),
        PairingErrorView,
    >(pair)]);
    assert(run_buffer(last, mid_buf, primary_only) == mid_buf.remove(k));
    // glue the three parts together
    lemma_run_append(first, mid + last, buffer, primary_only);
    assert(first + mid + last =~= first + (mid + last));
    lemma_run_append(mid, last, inserted, primary_only);
    assert(run_outputs(first + mid + last, buffer, primary_only) =~= run_outputs(
        mid,
        inserted,
        primary_only,
    ) + seq![Ok::<(RecordView, RecordView), PairingErrorView>(pair)]);
}

/// The records drained from the buffer as singletons, handed out one at a
/// time; a single pass, not restartable.
pub struct Singletons {
    records: Vec<Record>,
}

impl Singletons {
    /// The records not yet yielded, in the order they will come.
    pub closed spec fn pending(self) -> Seq<RecordView> {
        self.records@.map_values(|r: Record| r@).reverse()
    }

    /// Yields the next drained record; `None` once all have been handed out.
    pub fn next(&mut self) -> (out: Option<Record>)
        ensures
            match out {
                Some(r) => {
                    &&& old(self).pending().len() > 0
                    &&& r@ == old(self).pending()[0]
                    &&& final(self).pending() == old(self).pending().drop_first()
                },
                None => {
                    &&& old(self).pending().len() == 0
                    &&& final(self).pending() == old(self).pending()
                },
            },
    {
        let r = self.records.pop();
        proof {
            let mapped0 = old(self).records@.map_values(|r: Record| r@);
            if mapped0.len() > 0 {
                assert(self.records@.map_values(|r: Record| r@) =~= mapped0.drop_last());
                assert(final(self).pending() =~= old(self).pending().drop_first());
                assert(old(self).pending()[0] == mapped0[mapped0.len() - 1]);
            } else {
                assert(final(self).pending() =~= old(self).pending());
            }
        }
        r
    }
}

} // verus!

