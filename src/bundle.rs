//! Cutting a coordinate-sorted record stream into one bundle per target.
use vstd::prelude::*;

verus! {

/// Collects records until their target changes. Fed one record at a time,
/// it hands back each finished bundle; records of one bundle share a target.
pub struct Bundler<T> {
    /// Target of the bundle being collected, once a record has come.
    pub last_chr: Option<i32>,
    /// The bundle being collected.
    pub next_bundle: Vec<T>,
}

impl<T> Bundler<T> {
    pub fn new() -> (r: Bundler<T>)
        ensures
            r.last_chr is None,
            r.next_bundle@.len() == 0,
    {
        Bundler { last_chr: None, next_bundle: Vec::new() }
    }

    /// Takes the next record, of target `tid`. When the target changes, the
    /// bundle collected so far is returned and the record starts the next one.
    pub fn push(&mut self, tid: i32, item: T) -> (r: Option<Vec<T>>)
        ensures
            final(self).last_chr == Some(tid),
            (old(self).last_chr is None || old(self).last_chr == Some(tid)) ==> {
                &&& r is None
                &&& final(self).next_bundle@ == old(self).next_bundle@.push(item)
            },
            (old(self).last_chr matches Some(t) && t != tid) ==> {
                &&& r matches Some(b) && b@ == old(self).next_bundle@
                &&& final(self).next_bundle@ == seq![item]
            },
    {
        match self.last_chr {
            Some(t) => {
                if t == tid {
                    self.next_bundle.push(item);
                    None
                } else {
                    let mut done: Vec<T> = Vec::new();
                    core::mem::swap(&mut self.next_bundle, &mut done);
                    self.next_bundle.push(item);
                    self.last_chr = Some(tid);
                    Some(done)
                }
            },
            None => {
                self.next_bundle.push(item);
                self.last_chr = Some(tid);
                None
            },
        }
    }

    /// Ends the stream: the last bundle, unless it is empty.
    pub fn finish(&mut self) -> (r: Option<Vec<T>>)
        ensures
            r is None <==> old(self).next_bundle@.len() == 0,
            r matches Some(b) ==> b@ == old(self).next_bundle@,
            final(self).next_bundle@.len() == 0,
            final(self).last_chr == old(self).last_chr,
    {
        let mut done: Vec<T> = Vec::new();
        core::mem::swap(&mut self.next_bundle, &mut done);
        if done.len() > 0 {
            Some(done)
        } else {
            None
        }
    }
}

} // verus!
