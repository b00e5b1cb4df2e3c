//! Reading one event file after another.
//!
//! The files are numbered `0..n` and taken from the back of the list: the
//! last file is read first. Rewinding starts over with the same order.
use vstd::prelude::*;

verus! {

/// Which files are still to be read and which have been read.
pub struct CombinedReader {
    next_files: Vec<usize>,
    previous_files: Vec<usize>,
}

impl CombinedReader {
    /// Files still to be read; the last one is read next.
    pub closed spec fn next_files(&self) -> Seq<usize> {
        self.next_files@
    }

    /// Files read so far, in reading order.
    pub closed spec fn previous_files(&self) -> Seq<usize> {
        self.previous_files@
    }

    /// All files, in the order of the list they came in.
    pub open spec fn files(&self) -> Seq<usize> {
        self.next_files() + self.previous_files().reverse()
    }

    /// Read the files `0..n`.
    pub fn new(n: usize) -> (r: Self)
        ensures
            r.next_files() == Seq::new(n as nat, |i: int| i as usize),
            r.previous_files() == Seq::<usize>::empty(),
    {
        let mut next_files: Vec<usize> = Vec::new();
        let mut i: usize = 0;
        while i < n
            invariant
                i <= n,
                next_files@ == Seq::new(i as nat, |j: int| j as usize),
            decreases n - i,
        {
            next_files.push(i);
            i = i + 1;
        }
        CombinedReader { next_files, previous_files: Vec::new() }
    }

    /// The file to read once the current one is done: the last of the
    /// files still to be read, or `None` if all have been read.
    pub fn next_file(&mut self) -> (r: Option<usize>)
        ensures
            old(self).next_files().len() == 0 ==> r is None,
            old(self).next_files().len() == 0 ==> final(self).next_files() == old(self).next_files(),
            old(self).next_files().len() == 0 ==> final(self).previous_files() == old(self).previous_files(),
            old(self).next_files().len() > 0 ==> r == Some(old(self).next_files().last()),
            old(self).next_files().len() > 0 ==> final(self).next_files() == old(self).next_files().drop_last(),
            old(self).next_files().len() > 0 ==> final(self).previous_files() == old(self).previous_files().push(old(self).next_files().last()),
            final(self).files() == old(self).files(),
    {
        let ghost nf = self.next_files@;
        let ghost pf = self.previous_files@;
        match self.next_files.pop() {
            None => None,
            Some(f) => {
                self.previous_files.push(f);
                proof {
                    assert(pf.push(f).reverse() == seq![f] + pf.reverse());
                    assert(nf == nf.drop_last().push(f));
                    assert(nf.drop_last() + (seq![f] + pf.reverse()) == nf + pf.reverse());
                }
                Some(f)
            },
        }
    }

    /// How far reading has come: the number of the file being read and the
    /// number of files.
    pub fn progress(&self) -> (r: (usize, usize))
        requires
            self.next_files().len() + self.previous_files().len() <= usize::MAX,
        ensures
            r.0 == self.previous_files().len(),
            r.1 == self.previous_files().len() + self.next_files().len(),
    {
        (self.previous_files.len(), self.previous_files.len() + self.next_files.len())
    }

    /// Start over: all files are to be read again, in the same order.
    pub fn rewind(&mut self)
        ensures
            final(self).next_files() == old(self).files(),
            final(self).previous_files() == Seq::<usize>::empty(),
    {
        let ghost pf = self.previous_files@;
        let ghost nf = self.next_files@;
        let mut rev: Vec<usize> = Vec::new();
        while self.previous_files.len() > 0
            invariant
                self.next_files@ == nf,
                self.previous_files@.len() <= pf.len(),
                self.previous_files@ == pf.subrange(0, self.previous_files@.len() as int),
                rev@ == pf.subrange(self.previous_files@.len() as int, pf.len() as int).reverse(),
            decreases self.previous_files@.len(),
        {
            let ghost k = self.previous_files@.len() - 1;
            let f = self.previous_files.pop().unwrap();
            proof {
                assert(f == pf[k]);
                assert(pf.subrange(k, pf.len() as int).reverse() =~= pf.subrange(
                    k + 1,
                    pf.len() as int,
                ).reverse().push(f));
            }
            rev.push(f);
        }
        assert(pf.subrange(0, pf.len() as int) == pf);
        self.next_files.append(&mut rev);
    }
}

} // verus!
