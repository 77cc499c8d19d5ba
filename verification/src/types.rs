//! A decoded column.

use vstd::prelude::*;

verus! {

/// One decoded column. Names and texts are byte strings; a float is its
/// 64-bit pattern. Only the data vector of the column's own type is filled.
#[derive(Debug, PartialEq)]
pub struct PondColumn {
    pub name: Vec<u8>,
    pub vtype: u8,
    pub i64_data: Vec<i64>,
    pub f64_data: Vec<u64>,
    pub str_data: Vec<Vec<u8>>,
    pub bin_data: Vec<Vec<u8>>,
    pub n_values: usize,
    pub null_bitmap: Option<Vec<u8>>,
}

/// What a column holds.
pub struct ColumnView {
    pub name: Seq<u8>,
    pub vtype: u8,
    pub ints: Seq<i64>,
    pub floats: Seq<u64>,
    pub strs: Seq<Seq<u8>>,
    pub bins: Seq<Seq<u8>>,
    pub n: nat,
    pub nulls: Option<Seq<u8>>,
}

/// The contents of a list of byte strings.
pub open spec fn byte_views(v: Seq<Vec<u8>>) -> Seq<Seq<u8>> {
    Seq::new(v.len(), |i: int| v[i]@)
}

impl View for PondColumn {
    type V = ColumnView;

    open spec fn view(&self) -> ColumnView {
        ColumnView {
            name: self.name@,
            vtype: self.vtype,
            ints: self.i64_data@,
            floats: self.f64_data@,
            strs: byte_views(self.str_data@),
            bins: byte_views(self.bin_data@),
            n: self.n_values as nat,
            nulls: match self.null_bitmap {
                Some(b) => Some(b@),
                None => None,
            },
        }
    }
}

/// A nameless column of the given type without values.
pub open spec fn empty_column(vtype: u8) -> ColumnView {
    ColumnView {
        name: Seq::empty(),
        vtype,
        ints: Seq::empty(),
        floats: Seq::empty(),
        strs: Seq::empty(),
        bins: Seq::empty(),
        n: 0,
        nulls: None,
    }
}

pub open spec fn ints_column(vtype: u8, ints: Seq<i64>) -> ColumnView {
    ColumnView { ints, n: ints.len(), ..empty_column(vtype) }
}

pub open spec fn floats_column(vtype: u8, floats: Seq<u64>) -> ColumnView {
    ColumnView { floats, n: floats.len(), ..empty_column(vtype) }
}

pub open spec fn strs_column(vtype: u8, strs: Seq<Seq<u8>>) -> ColumnView {
    ColumnView { strs, n: strs.len(), ..empty_column(vtype) }
}

pub open spec fn bins_column(vtype: u8, bins: Seq<Seq<u8>>) -> ColumnView {
    ColumnView { bins, n: bins.len(), ..empty_column(vtype) }
}

/// A column of the given type that counts rows and stores none.
pub open spec fn blank_column(vtype: u8, n: nat) -> ColumnView {
    ColumnView { n, ..empty_column(vtype) }
}

impl PondColumn {
    /// A nameless column without values.
    pub fn empty(vtype: u8) -> (r: PondColumn)
        ensures
            r@ == empty_column(vtype),
    {
        let r = PondColumn {
            name: Vec::new(),
            vtype,
            i64_data: Vec::new(),
            f64_data: Vec::new(),
            str_data: Vec::new(),
            bin_data: Vec::new(),
            n_values: 0,
            null_bitmap: None,
        };
        proof {
            assert(byte_views(r.str_data@) =~= Seq::<Seq<u8>>::empty());
            assert(byte_views(r.bin_data@) =~= Seq::<Seq<u8>>::empty());
        }
        r
    }

    pub fn of_ints(vtype: u8, vals: Vec<i64>) -> (r: PondColumn)
        ensures
            r@ == ints_column(vtype, vals@),
    {
        let n: usize = vals.len();
        PondColumn { i64_data: vals, n_values: n, ..PondColumn::empty(vtype) }
    }

    pub fn of_floats(vtype: u8, vals: Vec<u64>) -> (r: PondColumn)
        ensures
            r@ == floats_column(vtype, vals@),
    {
        let n: usize = vals.len();
        PondColumn { f64_data: vals, n_values: n, ..PondColumn::empty(vtype) }
    }

    pub fn of_strs(vtype: u8, vals: Vec<Vec<u8>>) -> (r: PondColumn)
        ensures
            r@ == strs_column(vtype, byte_views(vals@)),
    {
        let n: usize = vals.len();
        PondColumn { str_data: vals, n_values: n, ..PondColumn::empty(vtype) }
    }

    pub fn of_bins(vtype: u8, vals: Vec<Vec<u8>>) -> (r: PondColumn)
        ensures
            r@ == bins_column(vtype, byte_views(vals@)),
    {
        let n: usize = vals.len();
        PondColumn { bin_data: vals, n_values: n, ..PondColumn::empty(vtype) }
    }
}

} // verus!
