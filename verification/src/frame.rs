//! The columnar data model: a column of raw physical cells with a name, and a
//! frame (one batch of rows) made of such columns.

use vstd::prelude::*;

verus! {

/// Mathematical value of a column: its name and its cell values.
pub struct ColV {
    pub name: Seq<u8>,
    pub values: Seq<u64>,
}

/// Mathematical value of a frame: its columns and its row count.
pub struct FrameV {
    pub cols: Seq<ColV>,
    pub height: nat,
}

/// One column: a name and the raw, hash- and compare-friendly physical form
/// of its cells.
pub struct Column {
    pub name: Vec<u8>,
    pub values: Vec<u64>,
}

impl View for Column {
    type V = ColV;

    open spec fn view(&self) -> ColV {
        ColV { name: self.name@, values: self.values@ }
    }
}

/// One batch of rows, kept as named columns of equal length.
pub struct Frame {
    pub cols: Vec<Column>,
    pub height: usize,
}

impl View for Frame {
    type V = FrameV;

    open spec fn view(&self) -> FrameV {
        FrameV { cols: self.cols@.map_values(|c: Column| c@), height: self.height as nat }
    }
}

impl FrameV {
    /// Every column holds exactly one cell per row.
    pub open spec fn wf(self) -> bool {
        forall|i: int| 0 <= i < self.cols.len() ==> (#[trigger] self.cols[i]).values.len() == self.height
    }

    /// The schema: the column names in order.
    pub open spec fn names(self) -> Seq<Seq<u8>> {
        self.cols.map_values(|c: ColV| c.name)
    }
}

/// The position of the first column with the given name, scanning left to
/// right.
pub open spec fn find_col(cols: Seq<ColV>, name: Seq<u8>) -> Option<int>
    decreases cols.len(),
{
    if cols.len() == 0 {
        None
    } else if cols[0].name == name {
        Some(0)
    } else {
        match find_col(cols.drop_first(), name) {
            Some(i) => Some(i + 1),
            None => None,
        }
    }
}

/// `find_col` returns exactly the first index whose name matches, and `None`
/// exactly when no name matches.
pub proof fn lemma_find_col(cols: Seq<ColV>, name: Seq<u8>)
    ensures
        match find_col(cols, name) {
            Some(i) => {
                &&& 0 <= i < cols.len()
                &&& cols[i].name == name
                &&& forall|j: int| 0 <= j < i ==> (#[trigger] cols[j]).name != name
            },
            None => forall|j: int| 0 <= j < cols.len() ==> (#[trigger] cols[j]).name != name,
        },
    decreases cols.len(),
{
    if cols.len() > 0 && cols[0].name != name {
        lemma_find_col(cols.drop_first(), name);
        match find_col(cols.drop_first(), name) {
            Some(i) => {
                assert forall|j: int| 0 <= j < i + 1 implies (#[trigger] cols[j]).name != name by {
                    if j > 0 {
                        assert(cols.drop_first()[j - 1] == cols[j]);
                    }
                }
            },
            None => {
                assert forall|j: int| 0 <= j < cols.len() implies (#[trigger] cols[j]).name != name by {
                    if j > 0 {
                        assert(cols.drop_first()[j - 1] == cols[j]);
                    }
                }
            },
        }
    }
}

/// Compares two byte strings.
pub fn bytes_eq(a: &Vec<u8>, b: &Vec<u8>) -> (r: bool)
    ensures
        r == (a@ == b@),
{
    if a.len() != b.len() {
        assert(a@ != b@);
        return false;
    }
    let mut i: usize = 0;
    while i < a.len()
        invariant
            i <= a.len(),
            a@.len() == b@.len(),
            forall|j: int| 0 <= j < i ==> a@[j] == b@[j],
        decreases a.len() - i,
    {
        if a[i] != b[i] {
            assert(a@ != b@);
            return false;
        }
        i += 1;
    }
    assert(a@ =~= b@);
    true
}

/// Copies a vector of plain values.
pub fn copy_vec<T: Copy>(v: &Vec<T>) -> (r: Vec<T>)
    ensures
        r@ == v@,
{
    let mut r: Vec<T> = Vec::new();
    let mut i: usize = 0;
    while i < v.len()
        invariant
            i <= v.len(),
            r@ == v@.take(i as int),
        decreases v.len() - i,
    {
        r.push(v[i]);
        assert(v@.take(i + 1) =~= v@.take(i as int).push(v@[i as int]));
        i += 1;
    }
    assert(v@.take(v@.len() as int) =~= v@);
    r
}

/// Copies one column.
pub fn clone_column(c: &Column) -> (r: Column)
    ensures
        r@ == c@,
{
    Column { name: copy_vec(&c.name), values: copy_vec(&c.values) }
}

/// Copies one frame.
pub fn clone_frame(f: &Frame) -> (r: Frame)
    ensures
        r@ == f@,
{
    let mut cols: Vec<Column> = Vec::new();
    let mut i: usize = 0;
    while i < f.cols.len()
        invariant
            i <= f.cols@.len(),
            cols@.len() == i,
            forall|j: int| 0 <= j < i ==> (#[trigger] cols@[j])@ == f.cols@[j]@,
        decreases f.cols@.len() - i,
    {
        cols.push(clone_column(&f.cols[i]));
        i += 1;
    }
    let r = Frame { cols, height: f.height };
    proof {
        assert(r@.cols =~= f@.cols);
    }
    r
}

/// Copies a sequence of frames.
pub fn clone_frames(v: &Vec<Frame>) -> (r: Vec<Frame>)
    ensures
        r@.map_values(|f: Frame| f@) == v@.map_values(|f: Frame| f@),
{
    let mut r: Vec<Frame> = Vec::new();
    let mut i: usize = 0;
    while i < v.len()
        invariant
            i <= v@.len(),
            r@.len() == i,
            forall|j: int| 0 <= j < i ==> (#[trigger] r@[j])@ == v@[j]@,
        decreases v@.len() - i,
    {
        r.push(clone_frame(&v[i]));
        i += 1;
    }
    proof {
        assert(r@.map_values(|f: Frame| f@) =~= v@.map_values(|f: Frame| f@));
    }
    r
}

impl Frame {
    pub open spec fn wf(&self) -> bool {
        self@.wf()
    }

    /// The position of the first column named `name`, if any.
    pub fn find_idx_by_name(&self, name: &Vec<u8>) -> (r: Option<usize>)
        ensures
            match r {
                Some(i) => find_col(self@.cols, name@) == Some(i as int),
                None => find_col(self@.cols, name@) is None,
            },
    {
        let mut i: usize = 0;
        while i < self.cols.len()
            invariant
                i <= self.cols@.len(),
                forall|j: int| 0 <= j < i ==> (#[trigger] self@.cols[j]).name != name@,
            decreases self.cols@.len() - i,
        {
            if bytes_eq(&self.cols[i].name, name) {
                proof {
                    lemma_find_col(self@.cols, name@);
                    match find_col(self@.cols, name@) {
                        Some(k) => {
                            if k < i as int {
                                assert(self@.cols[k].name != name@);
                            }
                            if k > i as int {
                                assert(self@.cols[i as int].name != name@);
                            }
                        },
                        None => {
                            assert(self@.cols[i as int].name != name@);
                        },
                    }
                }
                return Some(i);
            }
            i += 1;
        }
        proof {
            lemma_find_col(self@.cols, name@);
        }
        None
    }
}

} // verus!
