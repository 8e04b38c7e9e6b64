//! From transactions to labels: chunking, label cleanup, per-item retry and
//! fallback. Association with input transactions is strictly positional.
use vstd::prelude::*;
use vstd::string::*;

use crate::config::Config;
use crate::library;
use crate::library::LabelLibrary;
use crate::llm::{LlmError, RawLabel};
use crate::model::{BatchResponse, LabelResult, Sign, Transaction};
use crate::prompt;
use crate::prompt::strip_controls;
use crate::text;
use crate::text::same_text;

verus! {

/// Retry-After value for 503 responses.
pub const RETRY_AFTER_SECS: u64 = 5;

/// The longest label that is accepted, in characters.
pub const MAX_LABEL_CHARS: usize = 64;

/// What the pipeline needs to know of the settings.
pub struct LabelService {
    pub micro_batch: usize,
    pub model: String,
    /// Server-default label language (used when request omits `options.language`).
    pub default_language: String,
}

/// Why a whole request fails.
#[derive(Debug, Clone)]
pub enum LabelFailure {
    /// Backend down/overloaded: whole request fails with 503 + Retry-After.
    Backend(LlmError),
}

/// The generic label for an outflow.
pub open spec fn expense_label(language: Seq<char>) -> Seq<char> {
    if language == "de"@ {
        "Sonstige Ausgaben"@
    } else {
        "Other expenses"@
    }
}

/// The generic label for an inflow.
pub open spec fn income_label(language: Seq<char>) -> Seq<char> {
    if language == "de"@ {
        "Sonstige Einnahmen"@
    } else {
        "Other income"@
    }
}

/// Generic label for an outflow when the LLM produced nothing usable. Language
/// follows the request language for the shipped defaults.
pub fn default_expense_label(language: &str) -> (r: &'static str)
    ensures
        r@ == expense_label(language@),
        language@ == "de"@ ==> r@ == "Sonstige Ausgaben"@,
        language@ != "de"@ ==> r@ == "Other expenses"@,
{
    if same_text(language, "de") {
        "Sonstige Ausgaben"
    } else {
        "Other expenses"
    }
}

/// Generic label for an inflow when the LLM produced nothing usable.
pub fn default_income_label(language: &str) -> (r: &'static str)
    ensures
        r@ == income_label(language@),
        language@ == "de"@ ==> r@ == "Sonstige Einnahmen"@,
        language@ != "de"@ ==> r@ == "Other income"@,
{
    if same_text(language, "de") {
        "Sonstige Einnahmen"
    } else {
        "Other income"
    }
}

/// The generic label for an amount: an amount of zero counts as spending.
pub open spec fn fallback_label(sign: Sign, language: Seq<char>) -> Seq<char> {
    if sign is Positive {
        income_label(language)
    } else {
        expense_label(language)
    }
}

/// A label as it is handed out: without control characters and without white
/// space around it, and none where nothing or too much is left.
pub open spec fn cleaned(label: Seq<char>) -> Option<Seq<char>> {
    let s = text::trimmed(prompt::without_controls(label));
    if 1 <= s.len() <= MAX_LABEL_CHARS {
        Some(s)
    } else {
        None
    }
}

/// Label cleanup: control characters and outer white space go; a label that is
/// then empty or too long is none.
pub fn clean_label(label: &str) -> (r: Option<String>)
    ensures
        text::opt_text(r) == cleaned(label@),
{
    let stripped = strip_controls(label);
    let s = stripped.trim();
    let n = s.unicode_len();
    if 1 <= n && n <= MAX_LABEL_CHARS {
        Some(s.to_owned())
    } else {
        None
    }
}

/// `txs` in pieces of `size`, the last one possibly shorter.
pub open spec fn chunked(txs: Seq<Transaction>, size: int) -> Seq<Seq<Transaction>>
    decreases txs.len(),
{
    if size <= 0 || txs.len() == 0 {
        Seq::empty()
    } else if txs.len() <= size {
        seq![txs]
    } else {
        seq![txs.take(size)] + chunked(txs.skip(size), size)
    }
}

/// The pieces put together again.
pub open spec fn joined(chunks: Seq<Seq<Transaction>>) -> Seq<Transaction>
    decreases chunks.len(),
{
    if chunks.len() == 0 {
        Seq::empty()
    } else {
        chunks[0] + joined(chunks.drop_first())
    }
}

/// Cutting into pieces loses nothing and keeps the order: the pieces put
/// together are the transactions, no piece is empty, and none is longer than
/// `size`.
pub proof fn law_chunks_cover(txs: Seq<Transaction>, size: int)
    requires
        size > 0,
    ensures
        joined(chunked(txs, size)) == txs,
        forall|i: int|
            0 <= i < chunked(txs, size).len() ==> 1 <= (#[trigger] chunked(txs, size)[i]).len()
                <= size,
    decreases txs.len(),
{
    let chunks = chunked(txs, size);
    if txs.len() == 0 {
        assert(joined(chunks) =~= txs);
    } else if txs.len() <= size {
        assert(chunks.drop_first() =~= Seq::empty());
        assert(joined(chunks.drop_first()) =~= Seq::empty());
        assert(joined(chunks) =~= txs);
    } else {
        law_chunks_cover(txs.skip(size), size);
        assert(chunks.drop_first() =~= chunked(txs.skip(size), size));
        assert(joined(chunks) =~= txs);
        assert forall|i: int| 0 <= i < chunks.len() implies 1 <= (#[trigger] chunks[i]).len()
            <= size by {
            if i > 0 {
                assert(chunks[i] == chunked(txs.skip(size), size)[i - 1]);
            }
        }
    }
}

impl LabelService {
    /// The service with its settings.
    pub fn new(cfg: &Config) -> (r: Self)
        ensures
            r.micro_batch == cfg.micro_batch,
            r.model@ == cfg.model@,
            r.default_language@ == cfg.language@,
    {
        LabelService {
            micro_batch: cfg.micro_batch,
            model: cfg.model.clone(),
            default_language: cfg.language.clone(),
        }
    }

    /// The micro-batches: one prompt each.
    pub fn chunks(&self, transactions: &Vec<Transaction>) -> (r: Vec<Vec<Transaction>>)
        requires
            self.micro_batch > 0,
        ensures
            r@.map_values(|c: Vec<Transaction>| c@) == chunked(
                transactions@,
                self.micro_batch as int,
            ),
    {
        let n = transactions.len();
        let size = self.micro_batch;
        let mut out: Vec<Vec<Transaction>> = Vec::new();
        let mut from: usize = 0;
        let ghost all = chunked(transactions@, size as int);
        assert(transactions@.skip(0) =~= transactions@);
        while from < n
            invariant
                from <= n,
                n == transactions@.len(),
                size > 0,
                all == chunked(transactions@, size as int),
                out@.map_values(|c: Vec<Transaction>| c@) + chunked(
                    transactions@.skip(from as int),
                    size as int,
                ) =~= all,
            decreases n - from,
        {
            let ghost rest = transactions@.skip(from as int);
            let ghost before = out@.map_values(|c: Vec<Transaction>| c@);
            let to: usize = if n - from <= size {
                n
            } else {
                from + size
            };
            let mut chunk: Vec<Transaction> = Vec::new();
            let mut i: usize = from;
            while i < to
                invariant
                    from <= i <= to <= n,
                    n == transactions@.len(),
                    chunk@ == transactions@.subrange(from as int, i as int),
                decreases to - i,
            {
                chunk.push(transactions[i].clone());
                i += 1;
                assert(transactions@.subrange(from as int, i as int) =~= transactions@.subrange(
                    from as int,
                    i - 1,
                ).push(transactions@[i - 1]));
            }
            out.push(chunk);
            proof {
                assert(chunk@ =~= rest.take(to - from));
                assert(rest.skip(to - from) =~= transactions@.skip(to as int));
                assert(out@.map_values(|c: Vec<Transaction>| c@) =~= before + seq![chunk@]);
                if rest.len() <= size {
                    assert(rest.take(to - from) =~= rest);
                    assert(chunked(transactions@.skip(to as int), size as int) =~= Seq::empty());
                }
            }
            from = to;
        }
        assert(chunked(transactions@.skip(from as int), size as int) =~= Seq::empty());
        out
    }
}

/// The model said something that can stand as a label.
pub open spec fn usable(raw: Option<RawLabel>) -> bool {
    raw is Some && cleaned(raw->0.label@) is Some
}

/// What was said of item `i`, if anything was.
pub open spec fn said(raw: Seq<Option<RawLabel>>, i: int) -> Option<RawLabel> {
    if i < raw.len() {
        raw[i]
    } else {
        None
    }
}

/// `r` is the result for `tx`, of which the model said `first` in its
/// micro-batch and `second` when it was asked for this one alone: the first
/// usable label, else the generic one for the amount.
pub open spec fn is_result(
    r: LabelResult,
    tx: Transaction,
    first: Option<RawLabel>,
    second: Option<RawLabel>,
    language: Seq<char>,
    include_rationale: bool,
    model: Seq<char>,
) -> bool {
    &&& r.id@ == tx.id@
    &&& r.model@ == model
    &&& if usable(first) {
        &&& Some(r.label@) == cleaned(first->0.label@)
        &&& text::opt_text(r.rationale) == shown_rationale(first->0, include_rationale)
    } else if usable(second) {
        &&& Some(r.label@) == cleaned(second->0.label@)
        &&& text::opt_text(r.rationale) == shown_rationale(second->0, include_rationale)
    } else {
        &&& r.label@ == fallback_label(tx.amount.sign, language)
        &&& r.rationale is None
    }
}

/// The rationale, where it was asked for.
pub open spec fn shown_rationale(raw: RawLabel, include_rationale: bool) -> Option<Seq<char>> {
    if include_rationale {
        text::opt_text(raw.rationale)
    } else {
        None
    }
}

/// The positions below `n` of which nothing usable was said, in order.
pub open spec fn unlabelled(raw: Seq<Option<RawLabel>>, n: int) -> Seq<int>
    decreases n,
{
    if n <= 0 {
        Seq::empty()
    } else if usable(said(raw, n - 1)) {
        unlabelled(raw, n - 1)
    } else {
        unlabelled(raw, n - 1).push(n - 1)
    }
}

/// The label that was said of item `i`, cleaned, with its rationale.
fn usable_label(raw: &Vec<Option<RawLabel>>, i: usize) -> (r: Option<(String, Option<String>)>)
    ensures
        match r {
            Some((label, rationale)) => {
                &&& usable(said(raw@, i as int))
                &&& Some(label@) == cleaned(said(raw@, i as int)->0.label@)
                &&& text::opt_text(rationale) == text::opt_text(
                    said(raw@, i as int)->0.rationale,
                )
            },
            None => !usable(said(raw@, i as int)),
        },
{
    if i >= raw.len() {
        return None;
    }
    match &raw[i] {
        Some(rl) => match clean_label(rl.label.as_str()) {
            Some(label) => {
                let rationale = match &rl.rationale {
                    Some(t) => Some(t.clone()),
                    None => None,
                };
                Some((label, rationale))
            },
            None => None,
        },
        None => None,
    }
}

impl LabelService {
    fn make_result(
        &self,
        tx: &Transaction,
        label: String,
        rationale: Option<String>,
        include_rationale: bool,
    ) -> (r: LabelResult)
        ensures
            r.id@ == tx.id@,
            r.label@ == label@,
            text::opt_text(r.rationale) == (if include_rationale {
                text::opt_text(rationale)
            } else {
                None
            }),
            r.model@ == self.model@,
    {
        LabelResult {
            id: tx.id.clone(),
            label,
            rationale: if include_rationale {
                rationale
            } else {
                None
            },
            model: self.model.clone(),
        }
    }

    /// The items of a micro-batch that are to be asked for one by one: those of
    /// which nothing usable was said. After a timeout that is all of them, after
    /// another failure there is nothing left to ask.
    pub fn needs_retry(
        &self,
        raw: &Result<Vec<Option<RawLabel>>, LlmError>,
        items: usize,
    ) -> (r: Vec<usize>)
        ensures
            r@.map_values(|i: usize| i as int) == (match raw {
                Ok(labels) => unlabelled(labels@, items as int),
                Err(LlmError::Timeout(_)) => unlabelled(Seq::empty(), items as int),
                Err(_) => Seq::empty(),
            }),
            raw matches Ok(labels) ==> forall|i: usize| #[trigger]
                r@.contains(i) <==> i < items && !(i < labels@.len() && is_given(
                    labels@[i as int],
                )),
            raw matches Err(LlmError::Timeout(_)) ==> forall|i: usize| #[trigger]
                r@.contains(i) <==> i < items,
            raw matches Err(e) && !(e is Timeout) ==> r@.len() == 0,
            forall|a: int, b: int|
                0 <= a < b < r@.len() ==> (#[trigger] r@[a]) < (#[trigger] r@[b]),
    {
        let ghost none = Seq::<Option<RawLabel>>::empty();
        let ghost asked = match raw {
            Ok(labels) => labels@,
            Err(_) => none,
        };
        proof {
            law_items_to_ask_again(asked, items as int);
        }
        match raw {
            Ok(labels) => {
                let r = self.without_label(labels, items);
                proof {
                    lemma_positions(r@, unlabelled(asked, items as int));
                }
                r
            },
            Err(LlmError::Timeout(_)) => {
                let r = self.without_label(&Vec::new(), items);
                proof {
                    assert(unlabelled(none, items as int) == r@.map_values(|i: usize| i as int));
                    lemma_positions(r@, unlabelled(asked, items as int));
                }
                r
            },
            Err(_) => {
                let none: Vec<usize> = Vec::new();
                assert(none@.map_values(|i: usize| i as int) =~= Seq::empty());
                none
            },
        }
    }

    /// The items of which nothing usable was said.
    fn without_label(&self, raw: &Vec<Option<RawLabel>>, items: usize) -> (r: Vec<usize>)
        ensures
            r@.map_values(|i: usize| i as int) == unlabelled(raw@, items as int),
    {
        let mut out: Vec<usize> = Vec::new();
        assert(out@.map_values(|i: usize| i as int) =~= unlabelled(raw@, 0));
        for i in 0..items
            invariant
                out@.map_values(|i: usize| i as int) == unlabelled(raw@, i as int),
        {
            let ghost before = out@;
            if usable_label(raw, i).is_none() {
                out.push(i);
                assert(out@.map_values(|i: usize| i as int) =~= before.map_values(
                    |i: usize| i as int,
                ).push(i as int));
            }
        }
        out
    }

    /// Validates positional raw labels. Order is preserved: slot `i` of the
    /// output corresponds to `chunk[i]`. Empty/missing labels take what the
    /// individual retry gave, then a generic fallback label.
    pub fn validate_chunk(
        &self,
        chunk: &Vec<Transaction>,
        raw: &Vec<Option<RawLabel>>,
        retried: &Vec<Option<RawLabel>>,
        language: &str,
        include_rationale: bool,
    ) -> (r: Vec<LabelResult>)
        ensures
            r@.len() == chunk@.len(),
            forall|i: int|
                0 <= i < r@.len() ==> is_result(
                    #[trigger] r@[i],
                    chunk@[i],
                    said(raw@, i),
                    said(retried@, i),
                    language@,
                    include_rationale,
                    self.model@,
                ),
            forall|i: int|
                0 <= i < r@.len() ==> is_labelled(
                    #[trigger] r@[i],
                    chunk@[i],
                    if i < raw@.len() {
                        raw@[i]
                    } else {
                        None
                    },
                    if i < retried@.len() {
                        retried@[i]
                    } else {
                        None
                    },
                    language@,
                    include_rationale,
                    self.model@,
                ),
    {
        let mut out: Vec<LabelResult> = Vec::new();
        for i in 0..chunk.len()
            invariant
                out@.len() == i,
                forall|j: int|
                    0 <= j < i ==> is_result(
                        #[trigger] out@[j],
                        chunk@[j],
                        said(raw@, j),
                        said(retried@, j),
                        language@,
                        include_rationale,
                        self.model@,
                    ),
        {
            let tx = &chunk[i];
            let result = match usable_label(raw, i) {
                Some((label, rationale)) => self.make_result(
                    tx,
                    label,
                    rationale,
                    include_rationale,
                ),
                None => match usable_label(retried, i) {
                    Some((label, rationale)) => self.make_result(
                        tx,
                        label,
                        rationale,
                        include_rationale,
                    ),
                    None => {
                        let fallback = match tx.amount.sign {
                            Sign::Positive => default_income_label(language),
                            _ => default_expense_label(language),
                        };
                        self.make_result(tx, fallback.to_owned(), None, include_rationale)
                    },
                },
            };
            out.push(result);
        }
        proof {
            assert forall|i: int| 0 <= i < out@.len() implies is_labelled(
                #[trigger] out@[i],
                chunk@[i],
                said(raw@, i),
                said(retried@, i),
                language@,
                include_rationale,
                self.model@,
            ) by {
                law_model_label_stands(
                    out@[i],
                    chunk@[i],
                    said(raw@, i),
                    said(retried@, i),
                    language@,
                    include_rationale,
                    self.model@,
                );
            }
        }
        out
    }

    /// What asking for a single transaction gave: a failed call gives nothing.
    pub fn classify_single(
        &self,
        outcome: Result<Vec<Option<RawLabel>>, LlmError>,
    ) -> (r: Option<RawLabel>)
        ensures
            r == (match outcome {
                Ok(labels) => said(labels@, 0),
                Err(_) => None,
            }),
            outcome matches Ok(labels) && labels@.len() > 0 ==> r == outcome->Ok_0@[0],
            outcome is Err || outcome->Ok_0@.len() == 0 ==> r is None,
    {
        match outcome {
            Ok(labels) => {
                let mut labels = labels;
                if labels.len() == 0 {
                    None
                } else {
                    labels.swap_remove(0)
                }
            },
            Err(_) => None,
        }
    }
}

/// What came of one micro-batch: the answer of the model for the whole of it,
/// and what it said of the items that it was asked for one by one, by position.
pub struct ChunkOutcome {
    pub chunk: Vec<Transaction>,
    pub raw: Result<Vec<Option<RawLabel>>, LlmError>,
    pub retried: Vec<Option<RawLabel>>,
}

impl ChunkOutcome {
    /// The failure that ends the whole request. A timeout is none: it leaves
    /// the items to their retries.
    pub open spec fn fatal(self) -> Option<LlmError> {
        match self.raw {
            Ok(_) => None,
            Err(LlmError::Timeout(_)) => None,
            Err(e) => Some(e),
        }
    }

    /// Whether a failure ends the whole request.
    pub fn is_fatal(&self) -> (r: bool)
        ensures
            r == (self.fatal() is Some),
            r <==> self.raw is Err && !(self.raw->Err_0 is Timeout),
    {
        match &self.raw {
            Ok(_) => false,
            Err(LlmError::Timeout(_)) => false,
            Err(_) => true,
        }
    }

    /// What the model said of item `i` in the micro-batch.
    pub open spec fn first(self, i: int) -> Option<RawLabel> {
        match self.raw {
            Ok(labels) => said(labels@, i),
            Err(_) => None,
        }
    }
}

/// The transactions of all micro-batches, in order.
pub open spec fn all_transactions(chunks: Seq<ChunkOutcome>) -> Seq<Transaction>
    decreases chunks.len(),
{
    if chunks.len() == 0 {
        Seq::empty()
    } else {
        all_transactions(chunks.drop_last()) + chunks.last().chunk@
    }
}

/// What was said at first of all transactions, in order.
pub open spec fn all_first(chunks: Seq<ChunkOutcome>) -> Seq<Option<RawLabel>>
    decreases chunks.len(),
{
    if chunks.len() == 0 {
        Seq::empty()
    } else {
        let c = chunks.last();
        all_first(chunks.drop_last()) + Seq::new(c.chunk@.len(), |i: int| c.first(i))
    }
}

/// What was said at second asking of all transactions, in order.
pub open spec fn all_second(chunks: Seq<ChunkOutcome>) -> Seq<Option<RawLabel>>
    decreases chunks.len(),
{
    if chunks.len() == 0 {
        Seq::empty()
    } else {
        let c = chunks.last();
        all_second(chunks.drop_last()) + Seq::new(c.chunk@.len(), |i: int| said(c.retried@, i))
    }
}

/// The failure that ends the request: that of the first micro-batch that has
/// one.
pub open spec fn first_fatal(chunks: Seq<ChunkOutcome>) -> Option<LlmError>
    decreases chunks.len(),
{
    if chunks.len() == 0 {
        None
    } else if chunks[0].fatal() is Some {
        chunks[0].fatal()
    } else {
        first_fatal(chunks.drop_first())
    }
}

/// `results` are the results for the transactions of all micro-batches, in
/// order.
pub open spec fn are_results(
    results: Seq<LabelResult>,
    chunks: Seq<ChunkOutcome>,
    language: Seq<char>,
    include_rationale: bool,
    model: Seq<char>,
) -> bool {
    &&& results.len() == all_transactions(chunks).len()
    &&& forall|i: int|
        0 <= i < results.len() ==> is_result(
            #[trigger] results[i],
            all_transactions(chunks)[i],
            all_first(chunks)[i],
            all_second(chunks)[i],
            language,
            include_rationale,
            model,
        )
}

proof fn lemma_all_lengths(chunks: Seq<ChunkOutcome>)
    ensures
        all_first(chunks).len() == all_transactions(chunks).len(),
        all_second(chunks).len() == all_transactions(chunks).len(),
    decreases chunks.len(),
{
    if chunks.len() > 0 {
        lemma_all_lengths(chunks.drop_last());
    }
}

impl LabelService {
    /// Labels a batch of transactions from what came of its micro-batches, in
    /// order. Timeouts degrade item-wise (fallback) instead of failing the
    /// whole request; only the first other failure aborts it.
    pub fn label(
        &self,
        chunks: Vec<ChunkOutcome>,
        language: &str,
        include_rationale: bool,
        batch_ms: u64,
    ) -> (r: Result<BatchResponse, LabelFailure>)
        ensures
            match first_fatal(chunks@) {
                Some(e) => r == Err::<BatchResponse, LabelFailure>(LabelFailure::Backend(e)),
                None => {
                    &&& r is Ok
                    &&& r->Ok_0.batch_ms == batch_ms
                    &&& are_results(
                        r->Ok_0.results@,
                        chunks@,
                        language@,
                        include_rationale,
                        self.model@,
                    )
                },
            },
            r is Err <==> exists|k: int|
                0 <= k < chunks@.len() && (#[trigger] chunks@[k]).raw is Err && !(
                chunks@[k].raw->Err_0 is Timeout),
    {
        proof {
            law_only_backend_failures_abort(chunks@);
            assert forall|k: int| 0 <= k < chunks@.len() implies ((#[trigger] chunks@[k]).fatal()
                is Some <==> chunks@[k].raw is Err && !(chunks@[k].raw->Err_0 is Timeout)) by {}
        }
        let ghost all = chunks@;
        let mut results: Vec<LabelResult> = Vec::new();
        assert(all.skip(0) =~= all);
        assert(all.take(0) =~= Seq::empty());
        for outcome in it: chunks
            invariant
                it.seq() == all,
                first_fatal(all) is Some <==> exists|k: int|
                    0 <= k < all.len() && (#[trigger] all[k]).raw is Err && !(
                    all[k].raw->Err_0 is Timeout),
                first_fatal(all) == first_fatal(all.skip(it.index() as int)),
                results@.len() == all_transactions(all.take(it.index() as int)).len(),
                forall|i: int|
                    0 <= i < results@.len() ==> is_result(
                        #[trigger] results@[i],
                        all_transactions(all.take(it.index() as int))[i],
                        all_first(all.take(it.index() as int))[i],
                        all_second(all.take(it.index() as int))[i],
                        language@,
                        include_rationale,
                        self.model@,
                    ),
        {
            let ghost k = it.index() as int;
            assert(outcome == all[k]);
            assert(all.skip(k).drop_first() =~= all.skip(k + 1));
            assert(all.take(k + 1).drop_last() =~= all.take(k));
            assert(all.take(k + 1).last() == outcome);
            proof {
                lemma_all_lengths(all.take(k));
                lemma_all_lengths(all.take(k + 1));
            }
            let raw = match outcome.raw {
                Ok(raw) => raw,
                Err(LlmError::Timeout(_)) => Vec::new(),
                Err(e) => {
                    return Err(LabelFailure::Backend(e));
                },
            };
            let ghost before = results@;
            let mut validated = self.validate_chunk(
                &outcome.chunk,
                &raw,
                &outcome.retried,
                language,
                include_rationale,
            );
            let ghost added = validated@;
            results.append(&mut validated);
            assert(results@ =~= before + added);
            assert forall|i: int| 0 <= i < results@.len() implies is_result(
                #[trigger] results@[i],
                all_transactions(all.take(k + 1))[i],
                all_first(all.take(k + 1))[i],
                all_second(all.take(k + 1))[i],
                language@,
                include_rationale,
                self.model@,
            ) by {
                if i < before.len() {
                    assert(results@[i] == before[i]);
                } else {
                    let j = i - before.len();
                    assert(results@[i] == added[j]);
                    assert(said(raw@, j) == outcome.first(j));
                }
            }
        }
        assert(all.take(all.len() as int) =~= all);
        Ok(BatchResponse { results, batch_ms })
    }
}

/// The labels that were handed out, in order.
pub open spec fn handed_out(results: Seq<LabelResult>) -> Seq<Seq<char>> {
    results.map_values(|r: LabelResult| r.label@)
}

/// The labels that were handed out, in order.
fn returned_labels(batch: &BatchResponse) -> (r: Vec<String>)
    ensures
        r@.map_values(|l: String| l@) == handed_out(batch.results@),
{
    let mut out: Vec<String> = Vec::new();
    for i in 0..batch.results.len()
        invariant
            out@.len() == i,
            forall|j: int| 0 <= j < i ==> (#[trigger] out@[j])@ == batch.results@[j].label@,
    {
        out.push(batch.results[i].label.clone());
    }
    assert(out@.map_values(|l: String| l@) =~= handed_out(batch.results@));
    out
}

/// Records what a request handed out, and returns what is to be written to the
/// library file. A request that failed is not recorded, so that trying it again
/// does not count labels twice.
pub fn record_outcome(
    library: &mut LabelLibrary,
    language: &str,
    outcome: &Result<BatchResponse, LabelFailure>,
) -> (r: Option<String>)
    requires
        old(library).wf(),
        old(library).limit() != 0 && outcome is Ok ==> library::room_for(
            library::counts_of(old(library)@, language@),
            handed_out(outcome->Ok_0.results@),
        ),
    ensures
        final(library).wf(),
        final(library).file() == old(library).file(),
        final(library).limit() == old(library).limit(),
        if outcome is Err || outcome->Ok_0.results@.len() == 0 || old(library).limit() == 0 {
            r is None && final(library)@ == old(library)@
        } else {
            &&& library::recorded(
                old(library)@,
                language@,
                handed_out(outcome->Ok_0.results@),
                final(library)@,
            )
            &&& forall|m: Seq<char>, l: Seq<char>| #[trigger]
                library::uses(final(library)@, m, l) == library::uses(old(library)@, m, l) + (if m
                    == language@ {
                    outcome->Ok_0.results@.map_values(
                        |r: LabelResult| r.label@,
                    ).to_multiset().count(l)
                } else {
                    0
                })
            &&& match r {
                Some(text) => final(library).file().len() > 0 && library::is_file_text(
                    text@,
                    final(library)@,
                ),
                None => final(library).file().len() == 0,
            }
        },
{
    match outcome {
        Ok(batch) => {
            let labels = returned_labels(batch);
            assert(labels@.len() == handed_out(batch.results@).len()) by {
                assert(labels@.map_values(|l: String| l@).len() == labels@.len());
            }
            library.record(language, labels.as_slice())
        },
        Err(_) => None,
    }
}

/// Whether the counts of the library have room for what a request handed out; a
/// library that records nothing has.
pub fn has_room_for(
    library: &LabelLibrary,
    language: &str,
    outcome: &Result<BatchResponse, LabelFailure>,
) -> (r: bool)
    requires
        library.wf(),
    ensures
        r == (library.limit() != 0 && outcome is Ok ==> library::room_for(
            library::counts_of(library@, language@),
            handed_out(outcome->Ok_0.results@),
        )),
        r <==> (library.limit() != 0 && outcome is Ok ==> forall|l: Seq<char>|
            #[trigger] library::uses(library@, language@, l) + outcome->Ok_0.results@.map_values(
                |r: LabelResult| r.label@,
            ).to_multiset().count(l) <= u64::MAX),
{
    match outcome {
        Ok(batch) => {
            let labels = returned_labels(batch);
            library.max_in_prompt() == 0 || library.has_room(language, labels.as_slice())
        },
        Err(_) => true,
    }
}

proof fn lemma_all_of_chunks(outcomes: Seq<ChunkOutcome>)
    ensures
        all_transactions(outcomes) == joined(outcomes.map_values(|o: ChunkOutcome| o.chunk@)),
    decreases outcomes.len(),
{
    let pieces = outcomes.map_values(|o: ChunkOutcome| o.chunk@);
    if outcomes.len() > 0 {
        lemma_all_of_chunks(outcomes.drop_last());
        assert(pieces.drop_last() =~= outcomes.drop_last().map_values(
            |o: ChunkOutcome| o.chunk@,
        ));
        lemma_joined_last(pieces);
    }
}

proof fn lemma_joined_last(pieces: Seq<Seq<Transaction>>)
    requires
        pieces.len() > 0,
    ensures
        joined(pieces) == joined(pieces.drop_last()) + pieces.last(),
    decreases pieces.len(),
{
    if pieces.len() == 1 {
        assert(pieces.drop_first() =~= Seq::empty());
        assert(pieces.drop_last() =~= Seq::empty());
        assert(joined(Seq::<Seq<Transaction>>::empty()) =~= Seq::empty());
        assert(joined(pieces) =~= pieces[0]);
    } else {
        lemma_joined_last(pieces.drop_first());
        assert(pieces.drop_first().drop_last() =~= pieces.drop_last().drop_first());
        assert(pieces.drop_first().last() == pieces.last());
    }
}

/// Results follow the request: where the micro-batches are the pieces of
/// `txs`, there is one result for each transaction, in input order, and it bears
/// the id of that transaction.
pub proof fn law_results_follow_input(
    txs: Seq<Transaction>,
    size: int,
    outcomes: Seq<ChunkOutcome>,
    results: Seq<LabelResult>,
    language: Seq<char>,
    include_rationale: bool,
    model: Seq<char>,
)
    requires
        size > 0,
        outcomes.map_values(|o: ChunkOutcome| o.chunk@) == chunked(txs, size),
        are_results(results, outcomes, language, include_rationale, model),
    ensures
        all_transactions(outcomes) == txs,
        results.len() == txs.len(),
        forall|i: int| 0 <= i < txs.len() ==> (#[trigger] results[i]).id@ == txs[i].id@,
{
    law_chunks_cover(txs, size);
    lemma_all_of_chunks(outcomes);
    assert forall|i: int| 0 <= i < txs.len() implies (#[trigger] results[i]).id@ == txs[i].id@ by {
        assert(is_result(
            results[i],
            all_transactions(outcomes)[i],
            all_first(outcomes)[i],
            all_second(outcomes)[i],
            language,
            include_rationale,
            model,
        ));
    }
}

/// A request fails as a whole exactly where a micro-batch failed in a way other
/// than a timeout; else every item gets a label.
pub proof fn law_only_backend_failures_abort(chunks: Seq<ChunkOutcome>)
    ensures
        first_fatal(chunks) is Some <==> exists|i: int|
            0 <= i < chunks.len() && (#[trigger] chunks[i]).fatal() is Some,
    decreases chunks.len(),
{
    if chunks.len() > 0 {
        let rest = chunks.drop_first();
        law_only_backend_failures_abort(rest);
        if first_fatal(rest) is Some {
            let i = choose|i: int| 0 <= i < rest.len() && (#[trigger] rest[i]).fatal() is Some;
            assert(chunks[i + 1].fatal() is Some);
        }
        if chunks[0].fatal() is None && exists|i: int|
            0 <= i < chunks.len() && (#[trigger] chunks[i]).fatal() is Some {
            let i = choose|i: int| 0 <= i < chunks.len() && (#[trigger] chunks[i]).fatal() is Some;
            assert(rest[i - 1].fatal() is Some);
        }
    }
}

proof fn lemma_trimmed_is_part(s: Seq<char>)
    ensures
        text::trimmed_front(s).len() <= s.len(),
        text::trimmed_back(s).len() <= s.len(),
        prompt::free_of_controls(s) ==> prompt::free_of_controls(text::trimmed_front(s)),
        prompt::free_of_controls(s) ==> prompt::free_of_controls(text::trimmed_back(s)),
        text::trimmed_front(s).len() > 0 ==> !text::is_white(text::trimmed_front(s)[0]),
        text::trimmed_back(s).len() > 0 ==> !text::is_white(text::trimmed_back(s).last())
            && text::trimmed_back(s)[0] == s[0],
    decreases s.len(),
{
    if s.len() > 0 {
        lemma_trimmed_is_part(s.drop_first());
        lemma_trimmed_is_part(s.drop_last());
        if prompt::free_of_controls(s) {
            assert forall|i: int| 0 <= i < s.len() - 1 implies !prompt::is_control(
                #[trigger] s.drop_first()[i],
            ) by {
                assert(s.drop_first()[i] == s[i + 1]);
            }
            assert forall|i: int| 0 <= i < s.len() - 1 implies !prompt::is_control(
                #[trigger] s.drop_last()[i],
            ) by {
                assert(s.drop_last()[i] == s[i]);
            }
        }
    }
}

/// Text that starts and ends with characters other than white space and has no
/// control characters is its own clean form.
proof fn lemma_clean_is_fixed(s: Seq<char>)
    requires
        1 <= s.len() <= MAX_LABEL_CHARS,
        prompt::free_of_controls(s),
        !text::is_white(s[0]),
        !text::is_white(s.last()),
    ensures
        cleaned(s) == Some(s),
{
    prompt::lemma_without_controls(s);
}

/// Label cleanup is idempotent: what it lets through has 1 to 64 characters,
/// none of them a control character, no white space at either end, and comes
/// through again as it is.
pub proof fn law_cleanup_is_idempotent(label: Seq<char>)
    ensures
        cleaned(label) matches Some(s) ==> {
            &&& 1 <= s.len() <= MAX_LABEL_CHARS
            &&& prompt::free_of_controls(s)
            &&& !text::is_white(s[0])
            &&& !text::is_white(s.last())
            &&& cleaned(s) == Some(s)
        },
{
    let bare = prompt::without_controls(label);
    let front = text::trimmed_front(bare);
    let s = text::trimmed(bare);
    prompt::lemma_without_controls(label);
    lemma_trimmed_is_part(bare);
    lemma_trimmed_is_part(front);
    if 1 <= s.len() <= MAX_LABEL_CHARS {
        lemma_clean_is_fixed(s);
    }
}

proof fn lemma_generic_labels_are_clean(language: Seq<char>)
    ensures
        cleaned(expense_label(language)) == Some(expense_label(language)),
        cleaned(income_label(language)) == Some(income_label(language)),
{
    reveal_strlit("Sonstige Ausgaben");
    reveal_strlit("Other expenses");
    reveal_strlit("Sonstige Einnahmen");
    reveal_strlit("Other income");
    lemma_clean_is_fixed(expense_label(language));
    lemma_clean_is_fixed(income_label(language));
}

/// Every label that is handed out is clean, whatever the model said: 1 to 64
/// characters, none of them a control character, no white space at either end.
pub proof fn law_labels_are_clean(
    r: LabelResult,
    tx: Transaction,
    first: Option<RawLabel>,
    second: Option<RawLabel>,
    language: Seq<char>,
    include_rationale: bool,
    model: Seq<char>,
)
    requires
        is_result(r, tx, first, second, language, include_rationale, model),
    ensures
        cleaned(r.label@) == Some(r.label@),
        1 <= r.label@.len() <= MAX_LABEL_CHARS,
        prompt::free_of_controls(r.label@),
        !text::is_white(r.label@[0]),
        !text::is_white(r.label@.last()),
{
    lemma_generic_labels_are_clean(language);
    if usable(first) {
        law_cleanup_is_idempotent(first->0.label@);
    } else if usable(second) {
        law_cleanup_is_idempotent(second->0.label@);
    }
    law_cleanup_is_idempotent(r.label@);
}

/// A label without its control characters.
pub open spec fn bare(label: Seq<char>) -> Seq<char> {
    label.filter(|c: char| !(c <= '\u{1f}' || '\u{7f}' <= c <= '\u{9f}'))
}

/// `s` is white space around `core`, which begins and ends with other
/// characters.
pub open spec fn surrounds(
    s: Seq<char>,
    before: Seq<char>,
    core: Seq<char>,
    after: Seq<char>,
) -> bool {
    &&& s == before + core + after
    &&& text::all_white(before)
    &&& text::all_white(after)
    &&& core.len() > 0 ==> !text::is_white(core[0]) && !text::is_white(core.last())
}

/// The model gave `core` as a label: 1 to 64 characters that are left without
/// control characters and outer white space.
pub open spec fn gives(raw: Option<RawLabel>, core: Seq<char>) -> bool {
    &&& raw is Some
    &&& 1 <= core.len() <= 64
    &&& exists|before: Seq<char>, after: Seq<char>| #[trigger]
        surrounds(bare(raw->0.label@), before, core, after)
}

/// The model gave some label.
pub open spec fn is_given(raw: Option<RawLabel>) -> bool {
    exists|core: Seq<char>| #[trigger] gives(raw, core)
}

/// `r` is the result for `tx`: the label that the model gave at first, else the
/// one that it gave when asked again, else the generic one for the amount.
pub open spec fn is_labelled(
    r: LabelResult,
    tx: Transaction,
    first: Option<RawLabel>,
    second: Option<RawLabel>,
    language: Seq<char>,
    include_rationale: bool,
    model: Seq<char>,
) -> bool {
    &&& r.id@ == tx.id@
    &&& r.model@ == model
    &&& !include_rationale ==> r.rationale is None
    &&& forall|core: Seq<char>| #[trigger]
        gives(first, core) ==> r.label@ == core && (include_rationale ==> text::opt_text(
            r.rationale,
        ) == text::opt_text(first->0.rationale))
    &&& !is_given(first) ==> forall|core: Seq<char>| #[trigger]
        gives(second, core) ==> r.label@ == core && (include_rationale ==> text::opt_text(
            r.rationale,
        ) == text::opt_text(second->0.rationale))
    &&& !is_given(first) && !is_given(second) ==> {
        &&& r.rationale is None
        &&& language == "de"@ && tx.amount.sign is Positive ==> r.label@ == "Sonstige Einnahmen"@
        &&& language == "de"@ && !(tx.amount.sign is Positive) ==> r.label@
            == "Sonstige Ausgaben"@
        &&& language != "de"@ && tx.amount.sign is Positive ==> r.label@ == "Other income"@
        &&& language != "de"@ && !(tx.amount.sign is Positive) ==> r.label@ == "Other expenses"@
    }
}

/// Label cleanup leaves the core of a label: what stands between the white space
/// at its ends when the control characters are gone, if that has 1 to 64
/// characters.
pub proof fn law_cleanup_leaves_the_core(
    label: Seq<char>,
    before: Seq<char>,
    core: Seq<char>,
    after: Seq<char>,
)
    requires
        surrounds(bare(label), before, core, after),
    ensures
        cleaned(label) == (if 1 <= core.len() <= 64 {
            Some(core)
        } else {
            None
        }),
{
    lemma_bare(label);
    text::law_trimming_leaves_the_core(before, core, after);
}

proof fn lemma_bare(label: Seq<char>)
    ensures
        bare(label) == prompt::without_controls(label),
{
    let f = |c: char| !(c <= '\u{1f}' || '\u{7f}' <= c <= '\u{9f}');
    let g = |c: char| !prompt::is_control(c);
    assert(f =~= g);
}

/// A label is given exactly where cleanup leaves something, and it is that.
proof fn lemma_given(raw: Option<RawLabel>)
    ensures
        is_given(raw) == usable(raw),
        forall|core: Seq<char>| #[trigger]
            gives(raw, core) == (raw is Some && cleaned(raw->0.label@) == Some(core)),
{
    if raw is Some {
        let label = raw->0.label@;
        lemma_bare(label);
        assert forall|core: Seq<char>| #[trigger] gives(raw, core) == (cleaned(label) == Some(
            core,
        )) by {
            if gives(raw, core) {
                let (before, after) = choose|before: Seq<char>, after: Seq<char>| #[trigger]
                    surrounds(bare(label), before, core, after);
                law_cleanup_leaves_the_core(label, before, core, after);
            }
            if cleaned(label) == Some(core) {
                let (before, after) = text::law_trimming_takes_white_space_only(bare(label));
                assert(surrounds(bare(label), before, core, after));
            }
        }
        if usable(raw) {
            assert(gives(raw, cleaned(label)->0));
        }
    }
}

/// The model's own label is handed out wherever it gave one, at first or when
/// asked again; the generic label appears only where it gave none.
pub proof fn law_model_label_stands(
    r: LabelResult,
    tx: Transaction,
    first: Option<RawLabel>,
    second: Option<RawLabel>,
    language: Seq<char>,
    include_rationale: bool,
    model: Seq<char>,
)
    requires
        is_result(r, tx, first, second, language, include_rationale, model),
    ensures
        is_labelled(r, tx, first, second, language, include_rationale, model),
{
    lemma_given(first);
    lemma_given(second);
}

/// Asked again are exactly the items for which the model gave no label, each
/// once and in order.
pub proof fn law_items_to_ask_again(raw: Seq<Option<RawLabel>>, n: int)
    ensures
        forall|i: int| #[trigger]
            unlabelled(raw, n).contains(i) <==> 0 <= i < n && !(i < raw.len() && is_given(raw[i])),
        forall|a: int, b: int|
            0 <= a < b < unlabelled(raw, n).len() ==> (#[trigger] unlabelled(raw, n)[a]) < (
            #[trigger] unlabelled(raw, n)[b]),
    decreases n,
{
    let all = unlabelled(raw, n);
    if n > 0 {
        law_items_to_ask_again(raw, n - 1);
        let head = unlabelled(raw, n - 1);
        lemma_given(said(raw, n - 1));
        assert forall|a: int| 0 <= a < head.len() implies 0 <= (#[trigger] head[a]) < n - 1 by {
            assert(head.contains(head[a]));
        }
        assert forall|i: int| #[trigger] all.contains(i) <==> 0 <= i < n && !(i < raw.len()
            && is_given(raw[i])) by {
            lemma_given(None);
            if !usable(said(raw, n - 1)) {
                assert(all =~= head.push(n - 1));
                if head.contains(i) {
                    let a = choose|a: int| 0 <= a < head.len() && head[a] == i;
                    assert(all[a] == i);
                }
                if i == n - 1 {
                    assert(all[head.len() as int] == i);
                }
                if all.contains(i) && i != n - 1 {
                    let a = choose|a: int| 0 <= a < all.len() && all[a] == i;
                    assert(head[a] == i);
                }
            }
            assert(head.contains(i) <==> 0 <= i < n - 1 && !(i < raw.len() && is_given(raw[i])));
        }
    } else {
        assert(all =~= Seq::empty());
    }
}

proof fn lemma_positions(found: Seq<usize>, positions: Seq<int>)
    requires
        found.map_values(|i: usize| i as int) == positions,
    ensures
        forall|i: usize| #[trigger] found.contains(i) <==> positions.contains(i as int),
        found.len() == positions.len(),
        forall|a: int| 0 <= a < found.len() ==> #[trigger] found[a] == positions[a],
{
    assert forall|a: int| 0 <= a < found.len() implies #[trigger] found[a] == positions[a] by {
        assert(positions[a] == found.map_values(|i: usize| i as int)[a]);
    }
    assert forall|i: usize| #[trigger] found.contains(i) <==> positions.contains(i as int) by {
        if found.contains(i) {
            let a = choose|a: int| 0 <= a < found.len() && found[a] == i;
            assert(positions[a] == i as int);
        }
        if positions.contains(i as int) {
            let a = choose|a: int| 0 <= a < positions.len() && positions[a] == i as int;
            assert(found[a] == i);
        }
    }
}

/// Every micro-batch but the last is full: micro-batch `k` holds the transactions
/// from `k * size` on, `size` of them or as many as are left.
pub proof fn law_chunks_are_full(txs: Seq<Transaction>, size: int, k: int)
    requires
        size > 0,
        0 <= k < chunked(txs, size).len(),
    ensures
        0 <= k * size < txs.len(),
        chunked(txs, size)[k] == txs.subrange(
            k * size,
            if (k + 1) * size <= txs.len() {
                (k + 1) * size
            } else {
                txs.len() as int
            },
        ),
        k + 1 == chunked(txs, size).len() <==> txs.len() <= (k + 1) * size,
    decreases txs.len(),
{
    let chunks = chunked(txs, size);
    if txs.len() <= size {
        assert(k == 0);
        assert(k * size == 0 && (k + 1) * size == size) by (nonlinear_arith)
            requires
                k == 0,
        ;
        assert(chunks[0] =~= txs.subrange(0, txs.len() as int));
    } else {
        let rest = txs.skip(size);
        if k == 0 {
            assert(k * size == 0 && (k + 1) * size == size) by (nonlinear_arith)
                requires
                    k == 0,
            ;
            assert(chunks[0] =~= txs.subrange(0, size));
            lemma_chunks_not_empty(rest, size);
        } else {
            assert(chunks[k] == chunked(rest, size)[k - 1]);
            law_chunks_are_full(rest, size, k - 1);
            assert((k - 1) * size + size == k * size && k * size + size == (k + 1) * size)
                by (nonlinear_arith);
            assert(((k - 1) + 1) * size == k * size) by (nonlinear_arith);
            let to = if k * size <= rest.len() {
                k * size
            } else {
                rest.len() as int
            };
            assert(rest.subrange((k - 1) * size, to) =~= txs.subrange(k * size, to + size));
        }
    }
}

proof fn lemma_chunks_not_empty(txs: Seq<Transaction>, size: int)
    requires
        size > 0,
    ensures
        txs.len() > 0 ==> chunked(txs, size).len() > 0,
{
}

proof fn lemma_answers_of_chunk(outcomes: Seq<ChunkOutcome>, k: int, j: int)
    requires
        0 <= k < outcomes.len(),
        0 <= j < outcomes[k].chunk@.len(),
    ensures
        all_transactions(outcomes.take(k)).len() + j < all_transactions(outcomes).len(),
        all_transactions(outcomes)[all_transactions(outcomes.take(k)).len() + j]
            == outcomes[k].chunk@[j],
        all_first(outcomes)[all_transactions(outcomes.take(k)).len() + j] == outcomes[k].first(j),
        all_second(outcomes)[all_transactions(outcomes.take(k)).len() + j] == said(
            outcomes[k].retried@,
            j,
        ),
    decreases outcomes.len(),
{
    let rest = outcomes.drop_last();
    lemma_all_lengths(outcomes);
    lemma_all_lengths(rest);
    if k == outcomes.len() - 1 {
        assert(outcomes.take(k) =~= rest);
    } else {
        lemma_answers_of_chunk(rest, k, j);
        assert(rest.take(k) =~= outcomes.take(k));
        assert(rest[k] == outcomes[k]);
    }
}

proof fn lemma_chunk_offset(txs: Seq<Transaction>, size: int, outcomes: Seq<ChunkOutcome>, k: int)
    requires
        size > 0,
        outcomes.map_values(|o: ChunkOutcome| o.chunk@) == chunked(txs, size),
        0 <= k < outcomes.len(),
    ensures
        all_transactions(outcomes.take(k)).len() == k * size,
    decreases k,
{
    let pieces = outcomes.map_values(|o: ChunkOutcome| o.chunk@);
    if k == 0 {
        assert(outcomes.take(0) =~= Seq::empty());
        assert(k * size == 0) by (nonlinear_arith)
            requires
                k == 0,
        ;
    } else {
        lemma_chunk_offset(txs, size, outcomes, k - 1);
        assert(outcomes.take(k).drop_last() =~= outcomes.take(k - 1));
        assert(outcomes.take(k).last() == outcomes[k - 1]);
        law_chunks_are_full(txs, size, k - 1);
        law_chunks_are_full(txs, size, k);
        assert(pieces[k - 1] == outcomes[k - 1].chunk@);
        assert((k - 1) * size + size == k * size) by (nonlinear_arith);
        assert(((k - 1) + 1) * size == k * size) by (nonlinear_arith);
    }
}

/// Labelling a batch: where the micro-batches are the pieces of `txs`, the result
/// at each position is that of the transaction there, with what the model said
/// of it in its micro-batch and when it was asked again.
pub proof fn law_batches_are_labelled(
    txs: Seq<Transaction>,
    size: int,
    outcomes: Seq<ChunkOutcome>,
    results: Seq<LabelResult>,
    language: Seq<char>,
    include_rationale: bool,
    model: Seq<char>,
    k: int,
    j: int,
)
    requires
        size > 0,
        outcomes.map_values(|o: ChunkOutcome| o.chunk@) == chunked(txs, size),
        are_results(results, outcomes, language, include_rationale, model),
        0 <= k < outcomes.len(),
        0 <= j < outcomes[k].chunk@.len(),
    ensures
        0 <= k * size + j < results.len(),
        is_labelled(
            results[k * size + j],
            txs[k * size + j],
            match outcomes[k].raw {
                Ok(labels) => if j < labels@.len() {
                    labels@[j]
                } else {
                    None
                },
                Err(_) => None,
            },
            if j < outcomes[k].retried@.len() {
                outcomes[k].retried@[j]
            } else {
                None
            },
            language,
            include_rationale,
            model,
        ),
{
    law_results_follow_input(
        txs,
        size,
        outcomes,
        results,
        language,
        include_rationale,
        model,
    );
    lemma_answers_of_chunk(outcomes, k, j);
    lemma_chunk_offset(txs, size, outcomes, k);
    law_chunks_are_full(txs, size, k);
    assert(outcomes.map_values(|o: ChunkOutcome| o.chunk@)[k] == outcomes[k].chunk@);
    let p = k * size + j;
    law_model_label_stands(
        results[p],
        txs[p],
        all_first(outcomes)[p],
        all_second(outcomes)[p],
        language,
        include_rationale,
        model,
    );
}

/// The failure that is reported is that of the first micro-batch that failed
/// otherwise than by a timeout.
pub proof fn law_first_failure_is_reported(chunks: Seq<ChunkOutcome>, k: int, e: LlmError)
    requires
        0 <= k < chunks.len(),
        chunks[k].raw == Err::<Vec<Option<RawLabel>>, LlmError>(e),
        !(e is Timeout),
        forall|i: int|
            0 <= i < k ==> ((#[trigger] chunks[i]).raw is Ok || (chunks[i].raw->Err_0 is Timeout)),
    ensures
        first_fatal(chunks) == Some(e),
    decreases k,
{
    if k > 0 {
        let rest = chunks.drop_first();
        assert(chunks[0].raw is Ok || chunks[0].raw->Err_0 is Timeout);
        assert(rest[k - 1] == chunks[k]);
        assert forall|i: int| 0 <= i < k - 1 implies ((#[trigger] rest[i]).raw is Ok || (
        rest[i].raw->Err_0 is Timeout)) by {
            assert(rest[i] == chunks[i + 1]);
        }
        law_first_failure_is_reported(rest, k - 1, e);
    }
}

/// How many transactions the first `k` micro-batches hold.
pub open spec fn held_before(chunks: Seq<ChunkOutcome>, k: int) -> nat
    decreases k,
{
    if k <= 0 {
        0
    } else {
        held_before(chunks, k - 1) + chunks[k - 1].chunk@.len()
    }
}

proof fn lemma_held_before(chunks: Seq<ChunkOutcome>, k: int)
    requires
        0 <= k <= chunks.len(),
    ensures
        all_transactions(chunks.take(k)).len() == held_before(chunks, k),
    decreases k,
{
    if k > 0 {
        lemma_held_before(chunks, k - 1);
        assert(chunks.take(k).drop_last() =~= chunks.take(k - 1));
        assert(chunks.take(k).last() == chunks[k - 1]);
    } else {
        assert(chunks.take(0) =~= Seq::empty());
    }
}

/// Results come micro-batch by micro-batch, whatever their sizes: that of item `j` of
/// micro-batch `k` stands behind those of all earlier micro-batches and items, and
/// there are no others.
pub proof fn law_results_come_chunk_by_chunk(
    chunks: Seq<ChunkOutcome>,
    results: Seq<LabelResult>,
    language: Seq<char>,
    include_rationale: bool,
    model: Seq<char>,
    k: int,
    j: int,
)
    requires
        are_results(results, chunks, language, include_rationale, model),
        0 <= k < chunks.len(),
        0 <= j < chunks[k].chunk@.len(),
    ensures
        results.len() == held_before(chunks, chunks.len() as int),
        0 <= held_before(chunks, k) + j < results.len(),
        is_labelled(
            results[held_before(chunks, k) + j],
            chunks[k].chunk@[j],
            match chunks[k].raw {
                Ok(labels) => if j < labels@.len() {
                    labels@[j]
                } else {
                    None
                },
                Err(_) => None,
            },
            if j < chunks[k].retried@.len() {
                chunks[k].retried@[j]
            } else {
                None
            },
            language,
            include_rationale,
            model,
        ),
{
    lemma_held_before(chunks, k);
    lemma_held_before(chunks, chunks.len() as int);
    assert(chunks.take(chunks.len() as int) =~= chunks);
    lemma_answers_of_chunk(chunks, k, j);
    let p = held_before(chunks, k) + j;
    law_model_label_stands(
        results[p],
        all_transactions(chunks)[p],
        all_first(chunks)[p],
        all_second(chunks)[p],
        language,
        include_rationale,
        model,
    );
}

} // verus!
