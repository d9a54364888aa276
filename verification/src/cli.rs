//! The options of a generation run.
use crate::nauty::WORDSIZE;
use vstd::prelude::*;

verus! {

/// The command-line options: output formats, restrictions on the graphs,
/// degree and edge bounds, and the number of vertices.
#[derive(Clone, Debug, PartialEq, Eq)]
pub struct GengCli {
    pub nautyformat: bool,
    pub nooutput: bool,
    pub graph6: bool,
    pub sparse6: bool,
    pub trianglefree: bool,
    pub squarefree: bool,
    pub bipartite: bool,
    pub verbose: bool,
    pub canonise: bool,
    pub yformat: bool,
    pub header: bool,
    pub savemem: bool,
    pub connec1: bool,
    pub connec2: bool,
    pub quiet: bool,
    pub secret: bool,
    pub safe: bool,
    pub mindeg: Option<usize>,
    pub maxdeg: Option<usize>,
    pub multiplicity: Option<i32>,
    /// split level increment
    pub splitlevinc: Option<i32>,
    pub maxe: Option<usize>,
    pub maxn: u64,
}

/// The bounds of a run, as its options set them.
#[derive(Clone, Copy, Debug, PartialEq, Eq)]
pub struct RunBounds {
    /// The largest number of edges.
    pub maxe: usize,
    /// The largest degree.
    pub maxdeg: usize,
    /// The least degree.
    pub mindeg: usize,
    /// The connectivity asked for: 0, 1 (connected) or 2 (biconnected).
    pub connec: u8,
}

impl GengCli {
    /// The bounds of the run: the largest number of edges is the one given,
    /// or every pair of vertices; the least degree is the one given, or 0,
    /// raised to 1 for connected graphs of more than one vertex and to 2 for
    /// biconnected graphs of more than two; the largest degree is the one
    /// given, or `WORDSIZE`, and `maxn - 1` when it is not below the largest
    /// number of edges; the connectivity is 2 for biconnected graphs, else 1
    /// for connected ones, else 0.
    pub fn bounds(&self) -> (r: RunBounds)
        requires
            1 <= self.maxn <= WORDSIZE,
        ensures
            r.maxe == match self.maxe {
                Some(e) => e as int,
                None => (self.maxn * self.maxn - self.maxn) / 2,
            },
            r.mindeg == {
                let m0 = match self.mindeg {
                    Some(d) => d as int,
                    None => 0,
                };
                let m1 = if self.connec1 && m0 < 1 && self.maxn > 1 {
                    1
                } else {
                    m0
                };
                if self.connec2 && m1 < 2 && self.maxn > 2 {
                    2
                } else {
                    m1
                }
            },
            r.maxdeg == {
                let d = match self.maxdeg {
                    Some(d) => d as int,
                    None => WORDSIZE as int,
                };
                if d >= r.maxe {
                    self.maxn - 1
                } else {
                    d
                }
            },
            r.connec == if self.connec2 {
                2u8
            } else if self.connec1 {
                1u8
            } else {
                0u8
            },
    {
        let maxn = self.maxn as usize;
        assert(maxn * maxn <= 64 * 64) by (nonlinear_arith)
            requires
                maxn <= 64,
        ;
        assert(maxn <= maxn * maxn) by (nonlinear_arith)
            requires
                1 <= maxn,
        ;
        let maxe = match self.maxe {
            Some(e) => e,
            None => (maxn * maxn - maxn) / 2,
        };
        let mut maxdeg = match self.maxdeg {
            Some(d) => d,
            None => WORDSIZE,
        };
        let mut mindeg = match self.mindeg {
            Some(d) => d,
            None => 0,
        };
        if self.connec1 && mindeg < 1 && maxn > 1 {
            mindeg = 1;
        }
        if self.connec2 && mindeg < 2 && maxn > 2 {
            mindeg = 2;
        }
        if maxdeg >= maxe {
            maxdeg = maxn - 1;
        }
        let connec: u8 = if self.connec2 {
            2
        } else if self.connec1 {
            1
        } else {
            0
        };
        RunBounds { maxe, maxdeg, mindeg, connec }
    }

    /// Whether the run of more than one vertex keeps its level data small:
    /// when bipartite, square-free or triangle-free graphs or saving memory
    /// are asked for, when `maxn` is above 28 (memory is then saved), or when
    /// connected trees are asked for (`maxn == maxe + 1`; the graphs are then
    /// bipartite and square-free).
    pub fn sparse_run(&mut self, maxe: usize, connec: u8) -> (sparse: bool)
        requires
            old(self).maxn <= WORDSIZE,
            maxe < usize::MAX,
        ensures
            final(self).savemem == (old(self).savemem || old(self).maxn > 28 || old(self).maxn + 4 > 8
                * usize::BITS),
            final(self).bipartite == (old(self).bipartite || (old(self).maxn == maxe + 1 && connec > 0)),
            final(self).squarefree == (old(self).squarefree || (old(self).maxn == maxe + 1 && connec > 0)),
            sparse == (old(self).bipartite || old(self).squarefree || old(self).trianglefree
                || old(self).savemem || old(self).maxn > 28 || old(self).maxn + 4 > 8 * usize::BITS || (
            old(self).maxn == maxe + 1 && connec > 0)),
            final(self).maxn == old(self).maxn,
            final(self).trianglefree == old(self).trianglefree,
            final(self).connec1 == old(self).connec1,
            final(self).connec2 == old(self).connec2,
    {
        let maxn = self.maxn as usize;
        let mut sparse = self.bipartite || self.squarefree || self.trianglefree || self.savemem;
        if maxn > 28 || maxn + 4 > 8 * (usize::BITS as usize) {
            self.savemem = true;
            sparse = true;
        }
        if maxn == maxe + 1 && connec > 0 {
            self.bipartite = true;
            self.squarefree = true;
            sparse = true;
        }
        sparse
    }
}

} // verus!
