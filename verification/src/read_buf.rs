//! Reading into the buffers of asynchronous readers.

use crate::pieces::{lemma_run_is_next, min};
use crate::reader::{lemma_advanced, lemma_advances_compose, Reader};
use tokio::io::ReadBuf;
use vstd::prelude::*;

verus! {

/// `tokio::io::ReadBuf`: a buffer that is filled from its front.
#[verifier::external_type_specification]
#[verifier::external_body]
pub struct ExReadBuf<'a>(ReadBuf<'a>);

/// The bytes with which a buffer is filled so far.
pub uninterp spec fn filled_part(buffer: ReadBuf<'_>) -> Seq<u8>;

/// How many more bytes a buffer takes.
pub uninterp spec fn unfilled(buffer: ReadBuf<'_>) -> nat;

/// `ReadBuf::remaining` is the number of bytes that are not filled yet.
pub assume_specification<'a>[ ReadBuf::<'a>::remaining ](buffer: &ReadBuf<'a>) -> (count: usize)
    ensures
        count == unfilled(*buffer),
;

/// `ReadBuf::put_slice` appends `bytes` to what is filled and uses up as much of
/// the rest. It panics where that does not suffice: that is left out.
pub assume_specification<'a>[ ReadBuf::<'a>::put_slice ](buffer: &mut ReadBuf<'a>, bytes: &[u8])
    requires
        bytes@.len() <= unfilled(*old(buffer)),
    ensures
        filled_part(*final(buffer)) == filled_part(*old(buffer)) + bytes@,
        unfilled(*final(buffer)) == unfilled(*old(buffer)) - bytes@.len(),
;

impl Reader {
    /// Read as many bytes as the rest of `output` takes, or all that are left.
    /// What is filled already stays.
    pub fn poll_read(&mut self, output: &mut ReadBuf<'_>)
        requires
            old(self).wf(),
        ensures
            final(self).wf(),
            ({
                let unread = old(self).model().unread();
                let count = min(unfilled(*old(output)) as int, unread.len() as int);
                &&& filled_part(*final(output)) == filled_part(*old(output)) + unread.take(count)
                &&& unfilled(*final(output)) == unfilled(*old(output)) - count
                &&& final(self).model() == old(self).model().advanced(count)
                &&& final(self).model().unread() == unread.skip(count)
            }),
    {
        let ghost before = self.model();
        let ghost unread = before.unread();
        let ghost mut done: int = 0;
        proof {
            self.lemma_wf();
            lemma_advanced(before, 0);
            assert(filled_part(*output) =~= filled_part(*output) + unread.take(0));
        }
        self.advance(0);
        while output.remaining() > 0 && !self.is_empty()
            invariant
                self.wf(),
                before.wf(),
                before == old(self).model(),
                unread == before.unread(),
                0 <= done <= unread.len(),
                self.model() == before.advanced(done),
                self.model().unread() == unread.skip(done),
                filled_part(*output) == filled_part(*old(output)) + unread.take(done),
                unfilled(*output) == unfilled(*old(output)) - done,
            decreases unread.len() - done,
        {
            let ghost model = self.model();
            proof {
                self.lemma_wf();
                lemma_run_is_next(model.pieces, model.position - model.base());
            }
            let chunk = self.chunk();
            let left: usize = output.remaining();
            let count: usize = if left < chunk.len() {
                left
            } else {
                chunk.len()
            };
            output.put_slice(&chunk[0..count]);
            proof {
                assert(chunk@.subrange(0, count as int) =~= unread.subrange(done, done + count));
                assert(unread.take(done) + unread.subrange(done, done + count) =~= unread.take(
                    done + count,
                ));
                assert(filled_part(*output) =~= filled_part(*old(output)) + unread.take(
                    done + count,
                ));
                lemma_advances_compose(before, done, count as int);
                lemma_advanced(before, done + count);
                done = done + count;
            }
            self.advance(count);
        }
    }
}

} // verus!
