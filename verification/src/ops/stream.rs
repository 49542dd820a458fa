use std::sync::Arc;
use vstd::prelude::*;

verus! {

/// Why a stream ended before its end.
#[derive(Clone, Copy, Debug, PartialEq, Eq)]
pub enum StreamError {
    /// The predicate could not be evaluated on a batch.
    Evaluation,
    /// The mask did not hold one flag for each row of its batch.
    MaskLength,
    /// The stream below failed.
    Upstream,
}

/// A chunk of rows that flows from one node to the next.
#[derive(Clone, Debug, PartialEq, Eq)]
pub struct Batch<R> {
    pub rows: Vec<R>,
}

impl<R> View for Batch<R> {
    type V = Seq<R>;

    open spec fn view(&self) -> Seq<R> {
        self.rows@
    }
}

impl<R> Batch<R> {
    /// The number of rows.
    pub fn num_rows(&self) -> (n: usize)
        ensures
            n == self@.len(),
    {
        self.rows.len()
    }
}

/// Of the first `n` rows, those whose flag is set, in their order.
pub open spec fn kept_upto<R>(rows: Seq<R>, mask: Seq<bool>, n: int) -> Seq<R>
    decreases n,
{
    if n <= 0 {
        Seq::empty()
    } else if mask[n - 1] {
        kept_upto(rows, mask, n - 1).push(rows[n - 1])
    } else {
        kept_upto(rows, mask, n - 1)
    }
}

/// The rows whose flag is set, in their order.
pub open spec fn kept<R>(rows: Seq<R>, mask: Seq<bool>) -> Seq<R> {
    kept_upto(rows, mask, rows.len() as int)
}

/// What filtering a batch gives, for what the evaluation of the predicate
/// gave: its error, an error for a mask of the wrong length, or the rows
/// that the mask keeps.
pub open spec fn filtered<R>(rows: Seq<R>, evaluation: Result<Vec<bool>, StreamError>) -> Result<
    Seq<R>,
    StreamError,
> {
    match evaluation {
        Err(e) => Err(e),
        Ok(mask) => if mask@.len() != rows.len() {
            Err(StreamError::MaskLength)
        } else {
            Ok(kept(rows, mask@))
        },
    }
}

/// Whether `r` is the exec form of `expected`.
pub open spec fn gives<R>(r: Result<Batch<R>, StreamError>, expected: Result<Seq<R>, StreamError>) -> bool {
    match r {
        Ok(batch) => expected == Ok::<Seq<R>, StreamError>(batch@),
        Err(e) => expected == Err::<Seq<R>, StreamError>(e),
    }
}

/// Selects the rows of `batch` whose flag in `mask` is set. A mask that does
/// not hold one flag for each row is an error.
pub fn compact<R: Copy>(batch: &Batch<R>, mask: &Vec<bool>) -> (r: Result<Batch<R>, StreamError>)
    ensures
        gives(r, filtered(batch@, Ok(*mask))),
{
    if mask.len() != batch.rows.len() {
        return Err(StreamError::MaskLength);
    }
    let mut rows: Vec<R> = Vec::new();
    let mut i: usize = 0;
    while i < batch.rows.len()
        invariant
            i <= batch.rows.len(),
            mask.len() == batch.rows.len(),
            rows@ == kept_upto(batch@, mask@, i as int),
        decreases batch.rows.len() - i,
    {
        if mask[i] {
            rows.push(batch.rows[i]);
        }
        i += 1;
    }
    Ok(Batch { rows })
}

/// Evaluates `predicate` on `batch` and keeps the rows that its mask keeps.
/// An error of the evaluation is the error of the whole.
pub fn batch_filter<R: Copy, P: Fn(&Batch<R>) -> Result<Vec<bool>, StreamError>>(
    batch: &Batch<R>,
    predicate: &P,
) -> (r: Result<Batch<R>, StreamError>)
    requires
        predicate.requires((batch,)),
    ensures
        exists|evaluation: Result<Vec<bool>, StreamError>|
            #[trigger] predicate.ensures((batch,), evaluation) && gives(
                r,
                filtered(batch@, evaluation),
            ),
{
    let evaluation = predicate(batch);
    match evaluation {
        Ok(mask) => {
            let r = compact(batch, &mask);
            r
        },
        Err(e) => {
            let r = Err(e);
            r
        },
    }
}

/// What polling a stream gives.
#[derive(Clone, Debug, PartialEq, Eq)]
pub enum Polled<B> {
    /// Nothing yet.
    Pending,
    /// The stream is at its end.
    Finished,
    /// The stream failed, and is at its end.
    Failed(StreamError),
    /// The next batch.
    Batch(B),
}

/// What a filter does when its child's stream has been polled.
#[derive(Clone, Debug, PartialEq, Eq)]
pub enum Step<B> {
    /// It answers its own consumer.
    Return(Polled<B>),
    /// It polls the child again: the batch had no row left.
    Again,
}

/// What becomes of a batch once it was filtered. The batch comes with the
/// number of its rows. An error ends the stream, a batch without rows is
/// passed over, and any other batch is handed on.
pub open spec fn settled<B>(outcome: Result<(B, usize), StreamError>) -> Step<B> {
    match outcome {
        Err(e) => Step::Return(Polled::Failed(e)),
        Ok((batch, rows)) => if rows == 0 {
            Step::Again
        } else {
            Step::Return(Polled::Batch(batch))
        },
    }
}

/// Decides what to do with a batch that was filtered and holds `rows` rows.
pub fn settle<B>(outcome: Result<(B, usize), StreamError>) -> (step: Step<B>)
    ensures
        step == settled(outcome),
{
    match outcome {
        Err(e) => Step::Return(Polled::Failed(e)),
        Ok((batch, rows)) => {
            if rows == 0 {
                Step::Again
            } else {
                Step::Return(Polled::Batch(batch))
            }
        },
    }
}

/// A filtered batch together with the number of its rows.
pub open spec fn counted<R>(outcome: Result<Batch<R>, StreamError>) -> Result<
    (Batch<R>, usize),
    StreamError,
> {
    match outcome {
        Ok(batch) => Ok((batch, batch@.len() as usize)),
        Err(e) => Err(e),
    }
}

/// Counts the rows of a filtered batch.
fn count<R>(outcome: Result<Batch<R>, StreamError>) -> (r: Result<(Batch<R>, usize), StreamError>)
    ensures
        r == counted(outcome),
{
    match outcome {
        Ok(batch) => {
            let rows = batch.num_rows();
            Ok((batch, rows))
        },
        Err(e) => Err(e),
    }
}

/// What a filter's stream answers and whether it is at its end afterwards,
/// for whether it was at its end before and for what polling the child, and
/// filtering the batch if there was one, gave. A stream that is at its end
/// answers with the end, whatever it is handed. An error, the child's or the
/// filter's own, and the child's end put the stream at its end. A batch
/// without rows is passed over.
pub open spec fn advanced<B>(ended: bool, event: Polled<Result<(B, usize), StreamError>>) -> (
    Step<B>,
    bool,
) {
    if ended {
        (Step::Return(Polled::Finished), true)
    } else {
        match event {
            Polled::Pending => (Step::Return(Polled::Pending), false),
            Polled::Finished => (Step::Return(Polled::Finished), true),
            Polled::Failed(e) => (Step::Return(Polled::Failed(e)), true),
            Polled::Batch(Err(e)) => (Step::Return(Polled::Failed(e)), true),
            Polled::Batch(Ok((batch, rows))) => (settled(Ok::<(B, usize), StreamError>((batch, rows))), false),
        }
    }
}

/// What polling the child gave, with the batch, if there was one, filtered
/// and counted.
pub open spec fn event_of<R>(
    polled: Polled<Batch<R>>,
    outcome: Result<Batch<R>, StreamError>,
) -> Polled<Result<(Batch<R>, usize), StreamError>> {
    match polled {
        Polled::Pending => Polled::Pending,
        Polled::Finished => Polled::Finished,
        Polled::Failed(e) => Polled::Failed(e),
        Polled::Batch(_) => Polled::Batch(counted(outcome)),
    }
}

/// The stream of a filter: that of its child, with each batch cut down to the
/// rows that the predicate keeps, up to the first error or the child's end.
pub struct FilterStream<P> {
    predicate: Arc<P>,
    ended: bool,
}

impl<P> FilterStream<P> {
    /// The predicate by which the stream filters.
    pub closed spec fn predicate(&self) -> P {
        *self.predicate
    }

    /// Whether the stream is at its end.
    pub closed spec fn ended(&self) -> bool {
        self.ended
    }

    /// A stream that filters by `predicate` and is not at its end.
    pub fn new(predicate: P) -> (stream: FilterStream<P>)
        ensures
            stream.predicate() == predicate,
            !stream.ended(),
    {
        FilterStream { predicate: Arc::new(predicate), ended: false }
    }

    /// A stream that filters by the predicate behind `predicate`.
    pub(crate) fn over(predicate: Arc<P>) -> (stream: FilterStream<P>)
        ensures
            stream.predicate() == *predicate,
            !stream.ended(),
    {
        FilterStream { predicate, ended: false }
    }

    /// The predicate by which the stream filters.
    pub fn predicate_of(&self) -> (predicate: &P)
        ensures
            *predicate == self.predicate(),
    {
        &*self.predicate
    }

    /// Whether the stream is at its end. A stream at its end answers every
    /// step with the end: its child need not be polled any more.
    pub fn is_ended(&self) -> (r: bool)
        ensures
            r == self.ended(),
    {
        self.ended
    }

    /// One step of the stream, on what polling the child gave and, where
    /// that was a batch, on what filtering it gave.
    pub fn advance<B>(&mut self, event: Polled<Result<(B, usize), StreamError>>) -> (step: Step<B>)
        ensures
            final(self).predicate() == old(self).predicate(),
            (step, final(self).ended()) == advanced(old(self).ended(), event),
    {
        if self.ended {
            return Step::Return(Polled::Finished);
        }
        match event {
            Polled::Pending => Step::Return(Polled::Pending),
            Polled::Finished => {
                self.ended = true;
                Step::Return(Polled::Finished)
            },
            Polled::Failed(e) => {
                self.ended = true;
                Step::Return(Polled::Failed(e))
            },
            Polled::Batch(Err(e)) => {
                self.ended = true;
                Step::Return(Polled::Failed(e))
            },
            Polled::Batch(Ok(counted)) => settle(Ok(counted)),
        }
    }

    /// What the stream does with what polling the child gave. A stream at
    /// its end answers with the end and looks at nothing. Else only a batch
    /// is looked at: it is filtered by the predicate, and handed on if a row
    /// is left. "Nothing yet" goes to the consumer as it is; an error, the
    /// child's or the predicate's, and the child's end go to the consumer
    /// and put the stream at its end.
    pub fn poll_next<R: Copy>(&mut self, polled: Polled<Batch<R>>) -> (step: Step<Batch<R>>) where
        P: Fn(&Batch<R>) -> Result<Vec<bool>, StreamError>,

        requires
            !old(self).ended() ==> (polled matches Polled::Batch(batch) ==> old(self).predicate().requires(
                (&batch,),
            )),
        ensures
            final(self).predicate() == old(self).predicate(),
            old(self).ended() ==> final(self).ended() && step == Step::<Batch<R>>::Return(
                Polled::Finished,
            ),
            !old(self).ended() ==> match polled {
                Polled::Batch(batch) => exists|
                    evaluation: Result<Vec<bool>, StreamError>,
                    outcome: Result<Batch<R>, StreamError>,
                |
                    #![trigger old(self).predicate().ensures((&batch,), evaluation), counted(outcome)]
                    old(self).predicate().ensures((&batch,), evaluation) && gives(
                        outcome,
                        filtered(batch@, evaluation),
                    ) && (step, final(self).ended()) == advanced(
                        false,
                        Polled::Batch(counted(outcome)),
                    ),
                other => (step, final(self).ended()) == advanced(
                    false,
                    event_of(other, Err(StreamError::Upstream)),
                ),
            },
    {
        if self.ended {
            return Step::Return(Polled::Finished);
        }
        let event = match polled {
            Polled::Batch(batch) => Polled::Batch(count(batch_filter(&batch, &*self.predicate))),
            Polled::Pending => Polled::Pending,
            Polled::Finished => Polled::Finished,
            Polled::Failed(e) => Polled::Failed(e),
        };
        self.advance(event)
    }
}

/// All rows of the first `n` batches, in their order.
pub open spec fn rows_upto<R>(batches: Seq<Seq<R>>, n: int) -> Seq<R>
    decreases n,
{
    if n <= 0 {
        Seq::empty()
    } else {
        rows_upto(batches, n - 1) + batches[n - 1]
    }
}

/// What a filter hands on of the first `n` batches, given the mask of each:
/// each batch cut down to the rows that its mask keeps, those left out of
/// which no row is left.
pub open spec fn emitted_upto<R>(batches: Seq<Seq<R>>, masks: Seq<Seq<bool>>, n: int) -> Seq<Seq<R>>
    decreases n,
{
    if n <= 0 {
        Seq::empty()
    } else {
        let rest = kept(batches[n - 1], masks[n - 1]);
        if rest.len() == 0 {
            emitted_upto(batches, masks, n - 1)
        } else {
            emitted_upto(batches, masks, n - 1).push(rest)
        }
    }
}

/// The first batch whose mask does not fit it, if there is one before `n`.
pub open spec fn first_misfit<R>(batches: Seq<Seq<R>>, masks: Seq<Seq<bool>>, n: int) -> Option<int>
    decreases n,
{
    if n <= 0 {
        None
    } else {
        match first_misfit(batches, masks, n - 1) {
            Some(i) => Some(i),
            None => if masks[n - 1].len() != batches[n - 1].len() {
                Some(n - 1)
            } else {
                None
            },
        }
    }
}

/// The batches of a stream that comes with the mask of each batch.
pub open spec fn batches_of<R>(stream: Seq<(Batch<R>, Vec<bool>)>) -> Seq<Seq<R>> {
    Seq::new(stream.len(), |i: int| stream[i].0@)
}

/// The masks of a stream that comes with the mask of each batch.
pub open spec fn masks_of<R>(stream: Seq<(Batch<R>, Vec<bool>)>) -> Seq<Seq<bool>> {
    Seq::new(stream.len(), |i: int| stream[i].1@)
}

/// The rows of each batch of `out`.
pub open spec fn rows_of<R>(out: Seq<Batch<R>>) -> Seq<Seq<R>> {
    Seq::new(out.len(), |i: int| out[i]@)
}

/// Runs a filter over a whole stream, given each batch that the child hands
/// out together with the mask that the predicate gave for it, and collects
/// what the filter hands on. The first mask that does not fit its batch
/// fails the run.
pub fn filter_all<R: Copy>(stream: &Vec<(Batch<R>, Vec<bool>)>) -> (r: Result<
    Vec<Batch<R>>,
    StreamError,
>)
    ensures
        match r {
            Ok(out) => {
                &&& first_misfit(batches_of(stream@), masks_of(stream@), stream@.len() as int)
                    is None
                &&& rows_of(out@) == emitted_upto(
                    batches_of(stream@),
                    masks_of(stream@),
                    stream@.len() as int,
                )
            },
            Err(e) => {
                &&& first_misfit(batches_of(stream@), masks_of(stream@), stream@.len() as int)
                    is Some
                &&& e == StreamError::MaskLength
            },
        },
{
    let ghost batches = batches_of(stream@);
    let ghost masks = masks_of(stream@);
    let mut out: Vec<Batch<R>> = Vec::new();
    let mut i: usize = 0;
    while i < stream.len()
        invariant
            i <= stream.len(),
            batches == batches_of(stream@),
            masks == masks_of(stream@),
            first_misfit(batches, masks, i as int) is None,
            rows_of(out@) == emitted_upto(batches, masks, i as int),
        decreases stream.len() - i,
    {
        let outcome = compact(&stream[i].0, &stream[i].1);
        assert(outcome matches Ok(batch) ==> batch@.len() == batch.rows.len());
        let step = settle(count(outcome));
        match step {
            Step::Again => {},
            Step::Return(Polled::Batch(batch)) => {
                out.push(batch);
            },
            Step::Return(Polled::Failed(e)) => {
                proof {
                    lemma_misfit_stays(batches, masks, i as int + 1, stream@.len() as int);
                }
                return Err(e);
            },
            Step::Return(_) => {},
        }
        i += 1;
    }
    Ok(out)
}

/// A mask that does not fit its batch is not made good by what follows.
pub proof fn lemma_misfit_stays<R>(batches: Seq<Seq<R>>, masks: Seq<Seq<bool>>, n: int, m: int)
    requires
        n <= m,
        first_misfit(batches, masks, n) is Some,
    ensures
        first_misfit(batches, masks, m) == first_misfit(batches, masks, n),
    decreases m - n,
{
    if n < m {
        lemma_misfit_stays(batches, masks, n, m - 1);
    }
}

/// Where each flag says whether `keep` holds of its row, the mask keeps the
/// rows of which `keep` holds, in their order.
pub proof fn lemma_kept_is_filter<R>(
    rows: Seq<R>,
    mask: Seq<bool>,
    keep: spec_fn(R) -> bool,
    n: int,
)
    requires
        0 <= n <= rows.len(),
        mask.len() == rows.len(),
        forall|i: int| 0 <= i < n ==> mask[i] == keep(#[trigger] rows[i]),
    ensures
        kept_upto(rows, mask, n) == rows.subrange(0, n).filter(keep),
    decreases n,
{
    reveal(Seq::filter);
    if n > 0 {
        lemma_kept_is_filter(rows, mask, keep, n - 1);
        assert(rows.subrange(0, n).drop_last() =~= rows.subrange(0, n - 1));
    }
}

/// What a filter hands on are the rows of which its predicate holds, in the
/// order in which they came, within a batch and from one batch to the next;
/// and no batch that it hands on is empty.
pub proof fn lemma_filter_keeps_matching_rows<R>(
    batches: Seq<Seq<R>>,
    masks: Seq<Seq<bool>>,
    keep: spec_fn(R) -> bool,
    n: int,
)
    requires
        0 <= n <= batches.len(),
        masks.len() == batches.len(),
        forall|i: int| 0 <= i < n ==> (#[trigger] masks[i]).len() == batches[i].len(),
        forall|i: int, j: int|
            0 <= i < n && 0 <= j < batches[i].len() ==> masks[i][j] == keep(
                #[trigger] batches[i][j],
            ),
    ensures
        ({
            let out = emitted_upto(batches, masks, n);
            &&& rows_upto(out, out.len() as int) == rows_upto(batches, n).filter(keep)
            &&& forall|j: int| 0 <= j < out.len() ==> (#[trigger] out[j]).len() > 0
        }),
    decreases n,
{
    reveal(Seq::filter);
    if n > 0 {
        lemma_filter_keeps_matching_rows(batches, masks, keep, n - 1);
        let before = emitted_upto(batches, masks, n - 1);
        let batch = batches[n - 1];
        let rest = kept(batch, masks[n - 1]);
        lemma_kept_is_filter(batch, masks[n - 1], keep, batch.len() as int);
        assert(batch.subrange(0, batch.len() as int) =~= batch);
        Seq::filter_distributes_over_add(rows_upto(batches, n - 1), batch, keep);
        if rest.len() > 0 {
            lemma_rows_upto_prefix(before.push(rest), before, before.len() as int);
        }
    }
}

/// The rows of the first batches depend on those batches alone.
pub proof fn lemma_rows_upto_prefix<R>(a: Seq<Seq<R>>, b: Seq<Seq<R>>, n: int)
    requires
        0 <= n <= a.len(),
        n <= b.len(),
        forall|i: int| 0 <= i < n ==> a[i] == b[i],
    ensures
        rows_upto(a, n) == rows_upto(b, n),
    decreases n,
{
    if n > 0 {
        lemma_rows_upto_prefix(a, b, n - 1);
    }
}

} // verus!
