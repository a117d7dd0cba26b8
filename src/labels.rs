//! Label resolution: a table from label names to instruction indices, and the
//! pass that fills it from a program.
use vstd::prelude::*;
use vstd::utf8::encode_utf8;
use vstd::slice::{slice_subrange, slice_to_vec};
use crate::decode::{decode, decode_line, Line};

verus! {

/// The bytes of a program line.
pub open spec fn line_bytes(l: String) -> Seq<u8> {
    encode_utf8(l@)
}

/// The name that a line defines, if it is a label definition.
pub open spec fn label_name(line: Seq<u8>) -> Option<Seq<u8>> {
    match decode_line(line) {
        Ok(Line::Label { start, end }) => Some(line.subrange(start as int, end as int)),
        _ => None,
    }
}

/// `m` after recording every label among the first `n` lines of `p`, in
/// order, each under its line index; a later definition of a name replaces
/// an earlier one.
pub open spec fn resolve_upto(m: Map<Seq<u8>, usize>, p: Seq<String>, n: int) -> Map<
    Seq<u8>,
    usize,
>
    decreases n,
{
    if n <= 0 {
        m
    } else {
        let prev = resolve_upto(m, p, n - 1);
        match label_name(line_bytes(p[n - 1])) {
            Some(name) => prev.insert(name, (n - 1) as usize),
            None => prev,
        }
    }
}

pub open spec fn resolve(m: Map<Seq<u8>, usize>, p: Seq<String>) -> Map<Seq<u8>, usize> {
    resolve_upto(m, p, p.len() as int)
}

/// The last entry under name `k`.
pub open spec fn find_entry(s: Seq<(Vec<u8>, usize)>, k: Seq<u8>) -> Option<usize>
    decreases s.len(),
{
    if s.len() == 0 {
        None
    } else if s.last().0@ == k {
        Some(s.last().1)
    } else {
        find_entry(s.drop_last(), k)
    }
}

/// Label names with the instruction index each stands for.
pub struct LabelTable {
    pub entries: Vec<(Vec<u8>, usize)>,
}

impl View for LabelTable {
    type V = Map<Seq<u8>, usize>;

    open spec fn view(&self) -> Map<Seq<u8>, usize> {
        Map::new(
            |k: Seq<u8>| find_entry(self.entries@, k).is_some(),
            |k: Seq<u8>| find_entry(self.entries@, k).unwrap(),
        )
    }
}

fn same_bytes(a: &Vec<u8>, b: &[u8]) -> (r: bool)
    ensures
        r == (a@ == b@),
{
    if a.len() != b.len() {
        return false;
    }
    let mut i: usize = 0;
    while i < a.len()
        invariant
            i <= a.len() == b.len(),
            forall|j: int| 0 <= j < i ==> a@[j] == b@[j],
        decreases a.len() - i,
    {
        if a[i] != b[i] {
            return false;
        }
        i = i + 1;
    }
    assert(a@ =~= b@);
    true
}

impl LabelTable {
    pub fn new() -> (r: LabelTable)
        ensures
            r@ == Map::<Seq<u8>, usize>::empty(),
    {
        let r = LabelTable { entries: Vec::new() };
        assert(r@ =~= Map::<Seq<u8>, usize>::empty());
        r
    }

    /// The index recorded for `name`.
    pub fn get(&self, name: &[u8]) -> (r: Option<usize>)
        ensures
            r == (if self@.contains_key(name@) {
                Some(self@[name@])
            } else {
                None
            }),
    {
        let mut i: usize = self.entries.len();
        assert(self.entries@.subrange(0, i as int) =~= self.entries@);
        while i > 0
            invariant
                i <= self.entries@.len(),
                find_entry(self.entries@, name@) == find_entry(
                    self.entries@.subrange(0, i as int),
                    name@,
                ),
            decreases i,
        {
            let ghost s = self.entries@.subrange(0, i as int);
            assert(s.drop_last() =~= self.entries@.subrange(0, i - 1));
            if same_bytes(&self.entries[i - 1].0, name) {
                return Some(self.entries[i - 1].1);
            }
            i = i - 1;
        }
        None
    }

    /// Records `name` under `index`, replacing what it stood for before.
    pub fn insert(&mut self, name: Vec<u8>, index: usize)
        ensures
            final(self)@ == old(self)@.insert(name@, index),
    {
        if self.get(name.as_slice()) == Some(index) {
            assert(self@ =~= old(self)@.insert(name@, index));
            return;
        }
        let ghost before = self.entries@;
        self.entries.push((name, index));
        assert(self.entries@.drop_last() =~= before);
        assert(self@ =~= old(self)@.insert(name@, index));
    }

    /// Records every label definition of `program` under its line index, in
    /// program order.
    pub fn resolve(&mut self, program: &Vec<String>)
        ensures
            final(self)@ == resolve(old(self)@, program@),
    {
        let mut i: usize = 0;
        while i < program.len()
            invariant
                i <= program.len(),
                self@ == resolve_upto(old(self)@, program@, i as int),
            decreases program.len() - i,
        {
            let line = program[i].as_str().as_bytes();
            match decode(line) {
                Ok(Line::Label { start, end }) => {
                    proof {
                        crate::text::lemma_tokens_shape(line@);
                    }
                    let name = slice_to_vec(slice_subrange(line, start, end));
                    self.insert(name, i);
                },
                _ => {},
            }
            i = i + 1;
        }
    }
}

/// Resolving into a table is the same as laying the labels that the program
/// alone defines over the table.
pub proof fn lemma_resolve_overlays(m: Map<Seq<u8>, usize>, p: Seq<String>, n: int)
    ensures
        resolve_upto(m, p, n) == m.union_prefer_right(resolve_upto(Map::empty(), p, n)),
    decreases n,
{
    if n <= 0 {
        assert(m.union_prefer_right(Map::empty()) =~= m);
    } else {
        lemma_resolve_overlays(m, p, n - 1);
        let d = resolve_upto(Map::empty(), p, n - 1);
        match label_name(line_bytes(p[n - 1])) {
            Some(name) => {
                assert(m.union_prefer_right(d).insert(name, (n - 1) as usize) =~= m.union_prefer_right(
                    d.insert(name, (n - 1) as usize),
                ));
            },
            None => {},
        }
    }
}

/// Resolving the labels of an unchanged program a second time leaves the
/// table as the first pass left it.
pub proof fn law_resolve_idempotent(m: Map<Seq<u8>, usize>, p: Seq<String>)
    ensures
        resolve(resolve(m, p), p) == resolve(m, p),
{
    let n = p.len() as int;
    let d = resolve_upto(Map::empty(), p, n);
    lemma_resolve_overlays(m, p, n);
    lemma_resolve_overlays(resolve(m, p), p, n);
    assert(m.union_prefer_right(d).union_prefer_right(d) =~= m.union_prefer_right(d));
}

/// A label defined at line `k` and at no later line stands for `k` once the
/// program is resolved.
pub proof fn lemma_resolve_finds(
    m: Map<Seq<u8>, usize>,
    p: Seq<String>,
    n: int,
    k: int,
    name: Seq<u8>,
)
    requires
        p.len() <= usize::MAX,
        0 <= k < n <= p.len(),
        label_name(line_bytes(p[k])) == Some(name),
        forall|i: int| k < i < n ==> label_name(line_bytes(p[i])) != Some(name),
    ensures
        resolve_upto(m, p, n).contains_key(name),
        resolve_upto(m, p, n)[name] == k,
    decreases n,
{
    if n - 1 > k {
        lemma_resolve_finds(m, p, n - 1, k, name);
    }
}

} // verus!
