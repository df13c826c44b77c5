use crate::common::bit_array::BitArray;
use crate::common::charset::push_char;
use vstd::prelude::*;

verus! {

/// The bits as text: `X` for a set bit and `.` for a clear one, with a blank before every
/// eight of them.
pub open spec fn bits_text(bits: Seq<bool>) -> Seq<char>
    decreases bits.len(),
{
    if bits.len() == 0 {
        Seq::empty()
    } else {
        let before = bits_text(bits.drop_last());
        let sign = if bits.last() {
            'X'
        } else {
            '.'
        };
        if (bits.len() - 1) % 8 == 0 {
            before.push(' ').push(sign)
        } else {
            before.push(sign)
        }
    }
}

impl BitArray {
    /// The bits as text: `X` for a set bit and `.` for a clear one, with a blank before
    /// every eight of them.
    pub fn to_text(&self) -> (text: String)
        requires
            self.wf(),
        ensures
            text@ == bits_text(self@),
    {
        let size = self.get_size();
        let mut text = String::new();
        let mut i: usize = 0;
        proof {
            assert(self@.subrange(0, 0) =~= Seq::<bool>::empty());
        }
        while i < size
            invariant
                i <= size,
                size == self@.len(),
                self.wf(),
                text@ == bits_text(self@.subrange(0, i as int)),
            decreases size - i,
        {
            proof {
                let more = self@.subrange(0, i + 1);
                assert(more.drop_last() =~= self@.subrange(0, i as int));
                assert(more.last() == self@[i as int]);
            }
            if i % 8 == 0 {
                push_char(&mut text, ' ');
            }
            if self.get(i) {
                push_char(&mut text, 'X');
            } else {
                push_char(&mut text, '.');
            }
            i += 1;
        }
        proof {
            assert(self@.subrange(0, size as int) =~= self@);
        }
        text
    }
}

} // verus!
