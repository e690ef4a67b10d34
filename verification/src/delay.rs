use vstd::prelude::*;

verus! {

/// A delay line of fixed length: every value pushed in comes out again
/// after as many pushes as the line is long.
///
/// The line does not look into the values it holds, so it serves samples
/// of any copyable type.
#[derive(Debug, Clone)]
pub struct DelayLine<T> {
    buffer: Vec<T>,
    index: usize,
}

impl<T: Copy> DelayLine<T> {
    /// The invariant of the type: the write position lies inside the
    /// buffer.
    pub closed spec fn wf(&self) -> bool {
        self.index < self.buffer@.len() || (self.index == 0 && self.buffer@.len() == 0)
    }

    /// The values in the line, the oldest first.
    pub closed spec fn view(&self) -> Seq<T> {
        self.buffer@.subrange(self.index as int, self.buffer@.len() as int)
            + self.buffer@.subrange(0, self.index as int)
    }

    /// A line of `delay_samples` values, all of them `silence`.
    pub fn new(delay_samples: usize, silence: T) -> (line: Self)
        ensures
            line.wf(),
            line@ == Seq::new(delay_samples as nat, |i: int| silence),
    {
        let mut buffer: Vec<T> = Vec::new();
        let mut i: usize = 0;
        while i < delay_samples
            invariant
                i <= delay_samples,
                buffer@ =~= Seq::new(i as nat, |k: int| silence),
            decreases delay_samples - i,
        {
            buffer.push(silence);
            i += 1;
        }
        let line = DelayLine { buffer, index: 0 };
        proof {
            assert(line@ =~= Seq::new(delay_samples as nat, |i: int| silence));
        }
        line
    }

    /// The number of values in the line.
    pub fn len(&self) -> (n: usize)
        requires
            self.wf(),
        ensures
            n == self@.len(),
    {
        self.buffer.len()
    }

    /// Fills the line with `silence`.
    pub fn reset(&mut self, silence: T)
        requires
            old(self).wf(),
        ensures
            final(self).wf(),
            final(self)@ == Seq::new(old(self)@.len(), |i: int| silence),
    {
        let n = self.buffer.len();
        let mut i: usize = 0;
        while i < n
            invariant
                i <= n,
                n == self.buffer@.len(),
                forall|k: int| 0 <= k < i ==> self.buffer@[k] == silence,
            decreases n - i,
        {
            self.buffer.set(i, silence);
            i += 1;
        }
        self.index = 0;
        proof {
            assert(self@ =~= Seq::new(old(self)@.len(), |i: int| silence));
        }
    }

    /// The value that the next push will hand out.
    pub fn oldest(&self) -> (value: T)
        requires
            self.wf(),
            self@.len() > 0,
        ensures
            value == self@[0],
    {
        proof {
            assert(self@.len() == self.buffer@.len());
        }
        self.buffer[self.index]
    }

    /// The value that was pushed last.
    pub fn newest(&self) -> (value: T)
        requires
            self.wf(),
            self@.len() > 0,
        ensures
            value == self@[self@.len() - 1],
    {
        proof {
            assert(self@.len() == self.buffer@.len());
        }
        let n = self.buffer.len();
        let at = if self.index == 0 {
            n - 1
        } else {
            self.index - 1
        };
        self.buffer[at]
    }

    /// Pushes `input` into the line and hands out the oldest value.
    pub fn push_pop(&mut self, input: T) -> (output: T)
        requires
            old(self).wf(),
            old(self)@.len() > 0,
        ensures
            final(self).wf(),
            output == old(self)@[0],
            final(self)@ == old(self)@.drop_first().push(input),
    {
        proof {
            assert(self@.len() == self.buffer@.len());
        }
        let n = self.buffer.len();
        let at = self.index;
        let output = self.buffer[at];
        self.buffer.set(at, input);
        self.index = if at + 1 == n {
            0
        } else {
            at + 1
        };
        proof {
            assert(self@ =~= old(self)@.drop_first().push(input));
        }
        output
    }
}

/// A value pushed into a line comes out unchanged after exactly as many
/// further pushes as the line is long, less one.
pub proof fn lemma_delay_is_exact<T>(before: Seq<T>, pushed: Seq<T>, k: int)
    requires
        before.len() > 0,
        0 <= k,
        pushed.len() == k + before.len(),
    ensures
        after_pushes(before, pushed, pushed.len() as int)[0] == pushed[k],
{
    lemma_after_pushes(before, pushed, pushed.len() as int);
}

/// The contents of a line that held `before` after the first `n` values
/// of `pushed` went in.
pub open spec fn after_pushes<T>(before: Seq<T>, pushed: Seq<T>, n: int) -> Seq<T>
    decreases n,
{
    if n <= 0 {
        before
    } else {
        after_pushes(before, pushed, n - 1).drop_first().push(pushed[n - 1])
    }
}

/// After `n` pushes a line holds the tail of what it held followed by
/// what was pushed.
pub proof fn lemma_after_pushes<T>(before: Seq<T>, pushed: Seq<T>, n: int)
    requires
        before.len() > 0,
        0 <= n <= pushed.len(),
    ensures
        after_pushes(before, pushed, n) == (before + pushed.take(n)).skip(n),
    decreases n,
{
    if n > 0 {
        lemma_after_pushes(before, pushed, n - 1);
        assert(after_pushes(before, pushed, n) =~= (before + pushed.take(n)).skip(n));
    } else {
        assert(before =~= (before + pushed.take(0)).skip(0));
    }
}

} // verus!
