//! Handles for callers that build and read blobs column by column.

use vstd::prelude::*;
use vstd::string::*;
use crate::assemble::{assemble, blob_bytes, part_views, raw_floats_column, raw_floats_part, raw_ints_column,
    raw_ints_part, raw_strs_column, raw_strs_part, short_name, EncodedColumn, Part};
use crate::blob::{column_views, decoded, pnd2_decode};
use crate::bytes::copy_range;
use crate::constants::{VT_BINARY, VT_FLOAT64, VT_INT64, VT_STRING};
use crate::encode::str_bytes;
use crate::types::{byte_views, ColumnView, PondColumn};

verus! {

/// The columns of a decoded blob.
pub struct PondResult {
    pub columns: Vec<PondColumn>,
}

/// Decodes a blob; `None` where it cannot be decoded.
pub fn pond_pnd2_decode(blob: &[u8]) -> (r: Option<PondResult>)
    ensures
        match decoded(blob@, None) {
            Ok(cols) => r is Some && column_views(r->0.columns@) == cols,
            Err(_) => r is None,
        },
{
    match pnd2_decode(blob) {
        Ok(columns) => Some(PondResult { columns }),
        Err(_) => None,
    }
}

/// The column of a number, where it is of a type.
pub open spec fn typed_at(cols: Seq<ColumnView>, index: int, vtype: u8) -> Option<ColumnView> {
    if 0 <= index < cols.len() && cols[index].vtype == vtype {
        Some(cols[index])
    } else {
        None
    }
}

/// A value of a column, where it is of a type that holds such.
pub open spec fn text_at(cols: Seq<ColumnView>, index: int, vtype: u8, row: int) -> Option<Seq<u8>> {
    match typed_at(cols, index, vtype) {
        Some(c) => {
            let values = if vtype == VT_BINARY {
                c.bins
            } else {
                c.strs
            };
            if 0 <= row < values.len() {
                Some(values[row])
            } else {
                None
            }
        },
        None => None,
    }
}

impl PondResult {
    pub fn num_columns(&self) -> (r: usize)
        ensures
            r == self.columns@.len(),
    {
        self.columns.len()
    }

    /// A column's name.
    pub fn column_name(&self, index: usize) -> (r: Option<&Vec<u8>>)
        ensures
            r == if index < self.columns@.len() {
                Some(&self.columns@[index as int].name)
            } else {
                None
            },
    {
        if index < self.columns.len() {
            Some(&self.columns[index].name)
        } else {
            None
        }
    }

    /// A column's value type; 0 where there is no such column.
    pub fn column_vtype(&self, index: usize) -> (r: u8)
        ensures
            r == if index < self.columns@.len() {
                self.columns@[index as int].vtype
            } else {
                0
            },
    {
        if index < self.columns.len() {
            self.columns[index].vtype
        } else {
            0
        }
    }

    /// How many values a column has; 0 where there is no such column.
    pub fn column_len(&self, index: usize) -> (r: usize)
        ensures
            r == if index < self.columns@.len() {
                self.columns@[index as int].n_values
            } else {
                0
            },
    {
        if index < self.columns.len() {
            self.columns[index].n_values
        } else {
            0
        }
    }

    /// The numbers of an INT64 column.
    pub fn column_i64(&self, index: usize) -> (r: Option<&Vec<i64>>)
        ensures
            r == if index < self.columns@.len() && self.columns@[index as int].vtype == VT_INT64 {
                Some(&self.columns@[index as int].i64_data)
            } else {
                None
            },
            match typed_at(column_views(self.columns@), index as int, VT_INT64) {
                Some(c) => r matches Some(v) && c.ints == v@,
                None => r is None,
            },
    {
        if index < self.columns.len() && self.columns[index].vtype == VT_INT64 {
            Some(&self.columns[index].i64_data)
        } else {
            None
        }
    }

    /// The bit patterns of a FLOAT64 column.
    pub fn column_f64(&self, index: usize) -> (r: Option<&Vec<u64>>)
        ensures
            r == if index < self.columns@.len() && self.columns@[index as int].vtype == VT_FLOAT64 {
                Some(&self.columns@[index as int].f64_data)
            } else {
                None
            },
            match typed_at(column_views(self.columns@), index as int, VT_FLOAT64) {
                Some(c) => r matches Some(v) && c.floats == v@,
                None => r is None,
            },
    {
        if index < self.columns.len() && self.columns[index].vtype == VT_FLOAT64 {
            Some(&self.columns[index].f64_data)
        } else {
            None
        }
    }

    /// One value of a STRING column.
    pub fn column_str(&self, index: usize, row: usize) -> (r: Option<&Vec<u8>>)
        ensures
            r == if index < self.columns@.len() && self.columns@[index as int].vtype == VT_STRING && row
                < self.columns@[index as int].str_data@.len() {
                Some(&self.columns@[index as int].str_data@[row as int])
            } else {
                None
            },
            match text_at(column_views(self.columns@), index as int, VT_STRING, row as int) {
                Some(s) => r matches Some(v) && v@ == s,
                None => r is None,
            },
    {
        if index < self.columns.len() && self.columns[index].vtype == VT_STRING && row
            < self.columns[index].str_data.len() {
            Some(&self.columns[index].str_data[row])
        } else {
            None
        }
    }

    /// One value of a BINARY column.
    pub fn column_bin(&self, index: usize, row: usize) -> (r: Option<&Vec<u8>>)
        ensures
            r == if index < self.columns@.len() && self.columns@[index as int].vtype == VT_BINARY && row
                < self.columns@[index as int].bin_data@.len() {
                Some(&self.columns@[index as int].bin_data@[row as int])
            } else {
                None
            },
            match text_at(column_views(self.columns@), index as int, VT_BINARY, row as int) {
                Some(s) => r matches Some(v) && v@ == s,
                None => r is None,
            },
    {
        if index < self.columns.len() && self.columns[index].vtype == VT_BINARY && row
            < self.columns[index].bin_data.len() {
            Some(&self.columns[index].bin_data[row])
        } else {
            None
        }
    }

    /// All values of a STRING column.
    pub fn column_str_array(&self, index: usize) -> (r: Option<&Vec<Vec<u8>>>)
        ensures
            r == if index < self.columns@.len() && self.columns@[index as int].vtype == VT_STRING {
                Some(&self.columns@[index as int].str_data)
            } else {
                None
            },
            match typed_at(column_views(self.columns@), index as int, VT_STRING) {
                Some(c) => r matches Some(v) && c.strs == byte_views(v@),
                None => r is None,
            },
    {
        if index < self.columns.len() && self.columns[index].vtype == VT_STRING {
            Some(&self.columns[index].str_data)
        } else {
            None
        }
    }
}

/// A blob under construction. Every column has the same number of rows.
pub struct PondEncoder {
    n_rows: usize,
    columns: Vec<EncodedColumn>,
}

fn bytes_of_name(name: &str) -> (r: Vec<u8>)
    ensures
        r@ == short_name(name.spec_bytes()),
{
    let bytes = name.as_bytes();
    let n: usize = if bytes.len() <= 255 {
        bytes.len()
    } else {
        255
    };
    let r = copy_range(bytes, 0, n);
    proof {
        assert(r@ =~= short_name(name.spec_bytes()));
    }
    r
}

impl PondEncoder {
    /// How many rows every column has.
    pub closed spec fn rows(&self) -> nat {
        self.n_rows as nat
    }

    /// The columns so far.
    pub closed spec fn parts(&self) -> Seq<Part> {
        part_views(self.columns@)
    }

    pub fn new(n_rows: usize) -> (r: PondEncoder)
        ensures
            r.rows() == n_rows,
            r.parts() == Seq::<Part>::empty(),
    {
        let r = PondEncoder { n_rows, columns: Vec::new() };
        proof {
            assert(r.parts() =~= Seq::<Part>::empty());
        }
        r
    }

    fn add_column(&mut self, col: EncodedColumn)
        ensures
            final(self).rows() == old(self).rows(),
            final(self).parts() == old(self).parts().push(col@),
    {
        let ghost before = self.parts();
        let ghost p = col@;
        self.columns.push(col);
        proof {
            assert(self.parts() =~= before.push(p));
        }
    }

    /// Adds a column of signed numbers. A column with another number of rows
    /// is refused with `false`, and nothing changes.
    pub fn add_i64_column(&mut self, name: &str, values: &[i64]) -> (r: bool)
        ensures
            r == (values@.len() == old(self).rows()),
            final(self).rows() == old(self).rows(),
            final(self).parts() == if r {
                old(self).parts().push(raw_ints_part(short_name(name.spec_bytes()), values@))
            } else {
                old(self).parts()
            },
    {
        if values.len() != self.n_rows {
            return false;
        }
        self.add_column(raw_ints_column(bytes_of_name(name), values));
        true
    }

    /// Adds a column of floats, given as their bit patterns.
    pub fn add_f64_column(&mut self, name: &str, values: &[u64]) -> (r: bool)
        ensures
            r == (values@.len() == old(self).rows()),
            final(self).rows() == old(self).rows(),
            final(self).parts() == if r {
                old(self).parts().push(raw_floats_part(short_name(name.spec_bytes()), values@))
            } else {
                old(self).parts()
            },
    {
        if values.len() != self.n_rows {
            return false;
        }
        self.add_column(raw_floats_column(bytes_of_name(name), values));
        true
    }

    /// Adds a column of texts.
    pub fn add_str_column(&mut self, name: &str, values: &[&str]) -> (r: bool)
        ensures
            r == (values@.len() == old(self).rows()),
            final(self).rows() == old(self).rows(),
            final(self).parts() == if r {
                old(self).parts().push(
                    raw_strs_part(short_name(name.spec_bytes()), str_bytes(values@)),
                )
            } else {
                old(self).parts()
            },
    {
        if values.len() != self.n_rows {
            return false;
        }
        self.add_column(raw_strs_column(bytes_of_name(name), values));
        true
    }

    /// The blob of all columns added so far.
    pub fn build(&self) -> (r: Vec<u8>)
        ensures
            r@ == blob_bytes(self.rows(), self.parts()),
    {
        assemble(&self.columns, self.n_rows)
    }
}

} // verus!
