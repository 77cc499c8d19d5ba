//! A cursor over a blob's inner data.

use vstd::prelude::*;
use vstd::slice::slice_subrange;
use crate::bytes::{le_at, read_u32 as read_u32_at};
use crate::constants::{VT_BOOLEAN, VT_DATE, VT_FLOAT64, VT_INT64, VT_TIMESTAMP};

verus! {

/// A position in a run of bytes. Reading past the end yields `None` and
/// leaves the position where it was.
pub struct PND2Parser<'a> {
    pub data: &'a [u8],
    pub pos: usize,
}

/// Whether the stats of a column of this type are two 8-byte values.
pub open spec fn has_fixed_stats(vtype: u8) -> bool {
    vtype == VT_INT64 || vtype == VT_FLOAT64 || vtype == VT_BOOLEAN || vtype == VT_DATE || vtype
        == VT_TIMESTAMP
}

/// How many bytes a stat value of a column of this type takes.
pub open spec fn stat_len(vtype: u8) -> int {
    if has_fixed_stats(vtype) {
        8
    } else {
        0
    }
}

/// Where one stat value at `pos` ends, in data of length `len`.
pub open spec fn stat_end(len: int, pos: int, vtype: u8) -> int {
    if !has_fixed_stats(vtype) {
        pos
    } else if len - pos >= 8 {
        pos + 8
    } else {
        len
    }
}

impl<'a> PND2Parser<'a> {
    pub open spec fn wf(self) -> bool {
        self.pos <= self.data@.len()
    }

    pub fn new(data: &'a [u8]) -> (r: PND2Parser<'a>)
        ensures
            r.wf(),
            r.data@ == data@,
            r.pos == 0,
    {
        PND2Parser { data, pos: 0 }
    }

    pub fn read_u8(&mut self) -> (r: Option<u8>)
        requires
            old(self).wf(),
        ensures
            final(self).wf(),
            final(self).data == old(self).data,
            old(self).pos < old(self).data@.len() ==> r == Some(old(self).data@[old(self).pos as int])
                && final(self).pos == old(self).pos + 1,
            old(self).pos >= old(self).data@.len() ==> r is None && final(self).pos == old(self).pos,
    {
        if self.pos < self.data.len() {
            let b = self.data[self.pos];
            self.pos = self.pos + 1;
            Some(b)
        } else {
            None
        }
    }

    pub fn read_bytes(&mut self, n: usize) -> (r: Option<&'a [u8]>)
        requires
            old(self).wf(),
        ensures
            final(self).wf(),
            final(self).data == old(self).data,
            old(self).pos + n <= old(self).data@.len() ==> r is Some && r->0@ == old(self).data@.subrange(
                old(self).pos as int,
                old(self).pos + n,
            ) && final(self).pos == old(self).pos + n,
            old(self).pos + n > old(self).data@.len() ==> r is None && final(self).pos == old(self).pos,
    {
        if n <= self.data.len() - self.pos {
            let s = slice_subrange(self.data, self.pos, self.pos + n);
            self.pos = self.pos + n;
            Some(s)
        } else {
            None
        }
    }

    pub fn read_u32(&mut self) -> (r: Option<u32>)
        requires
            old(self).wf(),
        ensures
            final(self).wf(),
            final(self).data == old(self).data,
            old(self).pos + 4 <= old(self).data@.len() ==> r is Some && r->0 as nat == le_at(
                old(self).data@,
                old(self).pos as int,
                4,
            ) && final(self).pos == old(self).pos + 4,
            old(self).pos + 4 > old(self).data@.len() ==> r is None && final(self).pos == old(self).pos,
    {
        if 4 <= self.data.len() - self.pos {
            let v = read_u32_at(self.data, self.pos);
            self.pos = self.pos + 4;
            Some(v)
        } else {
            None
        }
    }

    /// Moves past one stat value of a column of the given type.
    pub fn skip_stat_value(&mut self, vtype: u8)
        requires
            old(self).wf(),
        ensures
            final(self).wf(),
            final(self).data == old(self).data,
            final(self).pos == stat_end(old(self).data@.len() as int, old(self).pos as int, vtype),
    {
        if vtype == VT_INT64 || vtype == VT_FLOAT64 || vtype == VT_BOOLEAN || vtype == VT_DATE
            || vtype == VT_TIMESTAMP {
            if 8 <= self.data.len() - self.pos {
                self.pos = self.pos + 8;
            } else {
                self.pos = self.data.len();
            }
        }
    }
}

} // verus!
