//! The report layout: fields with their bit ranges, and reports that own them.
use vstd::prelude::*;

verus! {

/// The largest transfer, Report ID slot included, that the device buffer
/// holds and a patch may reach.
pub const REPORT_CAPACITY: usize = 1024;

/// The kind of a field, as the report descriptor declares it.
#[derive(Clone, Copy, Debug, PartialEq, Eq, Structural)]
pub enum FieldKind {
    /// A single value at the field's bit range.
    Variable,
    /// `report_count` values of equal width, one after the other.
    Array,
    /// Anything else (constant padding and the like): not decoded.
    Other,
}

/// One field of a report. Bits are counted from the start of the report
/// payload, least significant bit of byte 0 first.
#[derive(Clone, Copy, Debug, PartialEq, Eq, Structural)]
pub struct FieldLayout {
    pub kind: FieldKind,
    /// First bit of the field.
    pub bit_start: usize,
    /// One past the last bit of the field.
    pub bit_end: usize,
    pub logical_minimum: i32,
    pub logical_maximum: i32,
    /// The number of elements of an array field; 1 for a variable field.
    pub report_count: usize,
    pub usage_page: u16,
    pub usage_id: u16,
}

/// A Feature Report: its optional Report ID, its size in bytes as the
/// descriptor gives it (a report with an ID counts the ID byte) and its
/// fields in descriptor order.
#[derive(Clone, Debug)]
pub struct ReportLayout {
    pub report_id: Option<u8>,
    pub size_in_bytes: usize,
    pub fields: Vec<FieldLayout>,
}

impl FieldLayout {
    /// A field covers at least one bit.
    pub open spec fn wf(&self) -> bool {
        self.bit_start < self.bit_end
    }

    /// The number of bits of the field.
    pub open spec fn width(&self) -> nat {
        (self.bit_end - self.bit_start) as nat
    }

    /// The index of the first byte that holds a bit of the field.
    pub open spec fn first_byte(&self) -> int {
        self.bit_start as int / 8
    }

    /// The index of the last byte that holds a bit of the field.
    pub open spec fn last_byte(&self) -> int {
        (self.bit_end as int - 1) / 8
    }

    /// The smallest range of bytes that holds every bit of the field, as its
    /// first and its last (inclusive) index.
    pub fn byte_window(&self) -> (r: (usize, usize))
        requires
            self.wf(),
        ensures
            r.0 == self.first_byte(),
            r.1 == self.last_byte(),
            r.0 <= r.1,
    {
        (self.bit_start / 8, (self.bit_end - 1) / 8)
    }
}

impl ReportLayout {
    /// Every field is well formed and lies inside the report.
    pub open spec fn wf(&self) -> bool {
        forall|i: int|
            0 <= i < self.fields@.len() ==> {
                &&& #[trigger] self.fields@[i].wf()
                &&& self.fields@[i].bit_end <= 8 * self.size_in_bytes
            }
    }

    /// The number of bytes that a device transfer of this report takes.
    pub open spec fn transfer_len(&self) -> int {
        if self.report_id is Some {
            self.size_in_bytes as int
        } else {
            self.size_in_bytes + 1
        }
    }

    /// The number of bytes to fetch from or send to the device for this
    /// report. The transport always wants a leading Report ID slot; a report
    /// with an ID counts it in its size already, one without gets one more
    /// byte for it.
    pub fn transfer_size(&self) -> (r: usize)
        requires
            self.size_in_bytes < usize::MAX,
        ensures
            r == self.transfer_len(),
            self.report_id is Some ==> r == self.size_in_bytes,
            self.report_id is None ==> r == self.size_in_bytes + 1,
    {
        match self.report_id {
            Some(_) => self.size_in_bytes,
            None => self.size_in_bytes + 1,
        }
    }
}

impl ReportLayout {
    /// The report is well formed and a transfer of it fits the device
    /// buffer.
    pub fn fits(&self) -> (r: bool)
        ensures
            r == (self.wf() && self.transfer_len() <= REPORT_CAPACITY),
    {
        if self.size_in_bytes > REPORT_CAPACITY || (self.report_id.is_none()
            && self.size_in_bytes == REPORT_CAPACITY) {
            return false;
        }
        let mut i: usize = 0;
        while i < self.fields.len()
            invariant
                i <= self.fields@.len(),
                self.transfer_len() <= REPORT_CAPACITY,
                forall|k: int|
                    0 <= k < i ==> #[trigger] self.fields@[k].wf() && self.fields@[k].bit_end <= 8
                        * self.size_in_bytes,
            decreases self.fields@.len() - i,
        {
            let start = self.fields[i].bit_start;
            let end = self.fields[i].bit_end;
            if start >= end || end > 8 * self.size_in_bytes {
                proof {
                    let ii = i as int;
                    assert(!(self.fields@[ii].wf() && self.fields@[ii].bit_end <= 8
                        * self.size_in_bytes));
                    if self.wf() {
                        assert(0 <= ii < self.fields@.len());
                        assert(self.fields@[ii].wf());
                    }
                }
                return false;
            }
            assert forall|k: int| 0 <= k < i + 1 implies #[trigger] self.fields@[k].wf()
                && self.fields@[k].bit_end <= 8 * self.size_in_bytes by {
                if k == i {
                    assert(self.fields@[k] == self.fields@[i as int]);
                }
            }
            i = i + 1;
        }
        true
    }
}

/// Every field of a well-formed report has a byte window that is not empty
/// and lies inside the report's bytes.
pub proof fn lemma_byte_window_in_report(report: ReportLayout, i: int)
    requires
        report.wf(),
        0 <= i < report.fields@.len(),
    ensures
        0 <= report.fields@[i].first_byte() <= report.fields@[i].last_byte(),
        report.fields@[i].last_byte() < report.size_in_bytes,
{
    let f = report.fields@[i];
    assert(f.wf());
}

} // verus!
