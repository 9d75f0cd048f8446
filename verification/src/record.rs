use vstd::prelude::*;

verus! {

/// The fields of an alignment record that pairing reads: the read name, the
/// flag bits, the record's own reference-sequence id and position, its mate's
/// reference-sequence id and position, and the signed template length.
///
/// An upstream decoder produces one of these per alignment; the surrounding
/// application converts from whatever record type the decoder uses.
#[derive(Clone, Debug, PartialEq, Eq)]
pub struct Record {
    pub read_name: Vec<u8>,
    pub flag: u16,
    pub ref_id: i32,
    pub pos: i32,
    pub next_ref_id: i32,
    pub next_pos: i32,
    pub tlen: i32,
}

/// The mathematical value of a `Record`.
pub ghost struct RecordView {
    pub read_name: Seq<u8>,
    pub flag: u16,
    pub ref_id: i32,
    pub pos: i32,
    pub next_ref_id: i32,
    pub next_pos: i32,
    pub tlen: i32,
}

impl View for Record {
    type V = RecordView;

    open spec fn view(&self) -> RecordView {
        RecordView {
            read_name: self.read_name@,
            flag: self.flag,
            ref_id: self.ref_id,
            pos: self.pos,
            next_ref_id: self.next_ref_id,
            next_pos: self.next_pos,
            tlen: self.tlen,
        }
    }
}

pub open spec fn flag_is_read_1(flag: u16) -> bool {
    flag & 0x40 != 0
}

pub open spec fn flag_is_read_2(flag: u16) -> bool {
    flag & 0x80 != 0
}

pub open spec fn flag_is_secondary(flag: u16) -> bool {
    flag & 0x100 != 0
}

pub open spec fn flag_is_supplementary(flag: u16) -> bool {
    flag & 0x800 != 0
}

/// A record is non-primary when it is flagged secondary or supplementary.
pub open spec fn flag_is_nonprimary(flag: u16) -> bool {
    flag_is_secondary(flag) || flag_is_supplementary(flag)
}

impl Record {
    /// Whether this record is flagged secondary or supplementary.
    pub fn is_nonprimary(&self) -> (r: bool)
        ensures
            r == flag_is_nonprimary(self.flag),
    {
        (self.flag & 0x100 != 0) || (self.flag & 0x800 != 0)
    }
}

/// A failure reported by the upstream record decoder for a single item of the
/// input; the engine forwards it without inspecting it.
#[derive(Clone, Debug, PartialEq, Eq)]
pub struct DecodeError {
    pub message: String,
}

} // verus!
