//! Rules shared by the clients of the two platforms: how long to wait before
//! trying again, which answers deserve another try, and how identifiers are
//! grouped into batches.

pub mod curseforge;
pub mod modrinth;

use crate::error::AppError;
use crate::text::{append_chars, chars_of, decimal, decimal_text, text_of};
use vstd::prelude::*;

verus! {

pub const MAX_RETRIES: u32 = 3;

pub const MAX_BACKOFF_MS: u64 = 8_000;

/// Modrinth accepts 300 requests a minute; batches stay well under it.
pub const ANALYTICS_BATCH: usize = 10;

/// 400 ms doubled at each attempt, the doubling stopping after sixteen, and
/// never more than `MAX_BACKOFF_MS`.
pub open spec fn backoff_of(attempt: u32) -> u64 {
    if attempt == 0 {
        400
    } else if attempt == 1 {
        800
    } else if attempt == 2 {
        1600
    } else if attempt == 3 {
        3200
    } else if attempt == 4 {
        6400
    } else {
        8000
    }
}

pub fn backoff_ms(attempt: u32) -> (r: u64)
    ensures
        r == backoff_of(attempt),
{
    let shift: u32 = if attempt < 16 {
        attempt
    } else {
        16
    };
    let raw: u64 = 400u64 << shift;
    assert(shift == 0 ==> (400u64 << shift) == 400u64) by (bit_vector);
    assert(shift == 1 ==> (400u64 << shift) == 800u64) by (bit_vector);
    assert(shift == 2 ==> (400u64 << shift) == 1600u64) by (bit_vector);
    assert(shift == 3 ==> (400u64 << shift) == 3200u64) by (bit_vector);
    assert(shift == 4 ==> (400u64 << shift) == 6400u64) by (bit_vector);
    assert(5 <= shift <= 16 ==> (400u64 << shift) >= 8000u64) by (bit_vector);
    if raw < MAX_BACKOFF_MS {
        raw
    } else {
        MAX_BACKOFF_MS
    }
}

/// Too many requests, or a fault on the server's side: worth another try.
pub open spec fn transient(status: u16) -> bool {
    status == 429 || (500 <= status && status < 600)
}

pub fn should_retry(status: u16) -> (r: bool)
    ensures
        r == transient(status),
{
    status == 429 || (500 <= status && status < 600)
}

/// The identifiers cut into consecutive batches of `size`, the last one
/// possibly shorter.
pub open spec fn chunked(ids: Seq<Seq<char>>, size: nat) -> Seq<Seq<Seq<char>>>
    recommends
        size > 0,
    decreases ids.len(),
{
    if ids.len() == 0 || size == 0 {
        seq![]
    } else if ids.len() <= size {
        seq![ids]
    } else {
        seq![ids.take(size as int)] + chunked(ids.skip(size as int), size)
    }
}

/// A batch size of zero is taken as one.
pub open spec fn batch_size(size: usize) -> nat {
    if size == 0 {
        1
    } else {
        size as nat
    }
}

pub open spec fn flatten(chunks: Seq<Seq<Seq<char>>>) -> Seq<Seq<char>>
    decreases chunks.len(),
{
    if chunks.len() == 0 {
        seq![]
    } else {
        chunks[0] + flatten(chunks.skip(1))
    }
}

fn copy_range(ids: &[String], from: usize, to: usize) -> (r: Vec<String>)
    requires
        from <= to <= ids@.len(),
    ensures
        r.deep_view() == ids.deep_view().subrange(from as int, to as int),
{
    let mut out: Vec<String> = Vec::new();
    let mut k = from;
    while k < to
        invariant
            from <= k <= to <= ids@.len(),
            out.deep_view() == ids.deep_view().subrange(from as int, k as int),
        decreases to - k,
    {
        let item = ids[k].clone();
        let ghost before = out.deep_view();
        out.push(item);
        proof {
            assert(item@ == ids@[k as int]@);
            assert(out.deep_view() =~= before.push(item@));
            assert(out.deep_view() =~= ids.deep_view().subrange(from as int, k + 1));
        }
        k = k + 1;
    }
    out
}

pub fn chunk_ids(ids: &[String], size: usize) -> (r: Vec<Vec<String>>)
    ensures
        r.deep_view() == chunked(ids.deep_view(), batch_size(size)),
{
    let size = if size == 0 {
        1
    } else {
        size
    };
    let ghost all = ids.deep_view();
    let mut out: Vec<Vec<String>> = Vec::new();
    let mut start: usize = 0;
    assert(all.skip(0) =~= all);
    while start < ids.len()
        invariant
            start <= ids@.len(),
            size > 0,
            all == ids.deep_view(),
            out.deep_view() + chunked(all.skip(start as int), size as nat) == chunked(
                all,
                size as nat,
            ),
        decreases ids@.len() - start,
    {
        let ghost rest = all.skip(start as int);
        let end = if ids.len() - start <= size {
            ids.len()
        } else {
            start + size
        };
        let chunk = copy_range(ids, start, end);
        proof {
            if rest.len() <= size {
                assert(rest =~= all.subrange(start as int, end as int));
                assert(all.skip(end as int).len() == 0);
                assert(chunked(all.skip(end as int), size as nat) =~= Seq::<Seq<Seq<char>>>::empty());
            } else {
                assert(rest.take(size as int) =~= all.subrange(start as int, end as int));
                assert(rest.skip(size as int) =~= all.skip(end as int));
            }
        }
        let ghost before = out.deep_view();
        out.push(chunk);
        proof {
            assert(out.deep_view() =~= before.push(chunk.deep_view()));
            assert(out.deep_view() + chunked(all.skip(end as int), size as nat) =~= before
                + chunked(rest, size as nat));
        }
        start = end;
    }
    proof {
        assert(all.skip(start as int).len() == 0);
        assert(out.deep_view() + chunked(all.skip(start as int), size as nat) =~= out.deep_view());
    }
    out
}

/// Batches lose nothing and add nothing: put back end to end they give the
/// identifiers in their order, and none is empty or longer than the size.
pub proof fn chunks_put_back_together(ids: Seq<Seq<char>>, size: nat)
    requires
        size > 0,
    ensures
        flatten(chunked(ids, size)) == ids,
        forall|i: int|
            0 <= i < chunked(ids, size).len() ==> 0 < (#[trigger] chunked(ids, size)[i]).len()
                <= size,
    decreases ids.len(),
{
    if ids.len() == 0 {
    } else if ids.len() <= size {
        let c = chunked(ids, size);
        assert(c.skip(1) =~= Seq::<Seq<Seq<char>>>::empty());
        assert(flatten(c.skip(1)) =~= Seq::<Seq<char>>::empty());
        assert(flatten(c) =~= ids);
    } else {
        chunks_put_back_together(ids.skip(size as int), size);
        let c = chunked(ids, size);
        let tail = chunked(ids.skip(size as int), size);
        assert(c.skip(1) =~= tail);
        assert(flatten(c) =~= ids.take(size as int) + ids.skip(size as int));
        assert(ids.take(size as int) + ids.skip(size as int) =~= ids);
        assert forall|i: int| 0 <= i < c.len() implies 0 < (#[trigger] c[i]).len() <= size by {
            if i > 0 {
                assert(c[i] == tail[i - 1]);
            }
        }
    }
}

/// What became of one sending of a request: the status of the answer, or
/// the description of the failure when no answer came.
#[derive(Debug, Clone)]
pub enum Sent {
    Answered(u16),
    Failed(String),
}

/// What follows a sending: hand the answer over, give up with an error, or
/// wait that many milliseconds before the next try.
#[derive(Debug, Clone)]
pub enum RetryStep {
    Deliver,
    Refuse(AppError),
    Wait(u64),
}

pub open spec fn http_status_text(status: u16) -> Seq<char> {
    "HTTP "@ + decimal(status as nat)
}

pub open spec fn exhausted_text(status: u16, attempt: u32) -> Seq<char> {
    "HTTP "@ + decimal(status as nat) + " après "@ + decimal(attempt as nat) + " reprises"@
}

/// The decision after the try numbered `attempt` (from zero): a refused
/// authentication is final, a transient answer or a failure is tried again
/// after the back-off until `MAX_RETRIES` retries were made, anything else
/// is the answer.
pub open spec fn next_step(provider: Seq<char>, sent: Sent, attempt: u32, step: RetryStep) -> bool {
    match sent {
        Sent::Answered(status) => if status == 401 || status == 403 {
            step matches RetryStep::Refuse(AppError::Auth { provider: p, detail: d }) && p@ == provider
                && d@ == http_status_text(status)
        } else if !transient(status) {
            step is Deliver
        } else if attempt >= MAX_RETRIES {
            step matches RetryStep::Refuse(AppError::Remote { provider: p, detail: d }) && p@
                == provider && d@ == exhausted_text(status, attempt)
        } else {
            step == RetryStep::Wait(backoff_of(attempt))
        },
        Sent::Failed(e) => if attempt >= MAX_RETRIES {
            step matches RetryStep::Refuse(AppError::Remote { provider: p, detail: d }) && p@
                == provider && d@ == e@
        } else {
            step == RetryStep::Wait(backoff_of(attempt))
        },
    }
}

pub fn after_attempt(provider: &str, sent: &Sent, attempt: u32) -> (r: RetryStep)
    ensures
        next_step(provider@, *sent, attempt, r),
{
    proof {
        reveal_strlit("HTTP ");
        reveal_strlit(" après ");
        reveal_strlit(" reprises");
    }
    match sent {
        Sent::Answered(status) => {
            let status = *status;
            if status == 401 || status == 403 {
                let mut out: Vec<char> = Vec::new();
                append_chars(&mut out, &chars_of("HTTP "));
                append_chars(&mut out, &decimal_text(status as u64));
                let detail = text_of(&out);
                return RetryStep::Refuse(AppError::auth(provider, detail.as_str()));
            }
            if !should_retry(status) {
                return RetryStep::Deliver;
            }
            if attempt >= MAX_RETRIES {
                let mut out: Vec<char> = Vec::new();
                append_chars(&mut out, &chars_of("HTTP "));
                append_chars(&mut out, &decimal_text(status as u64));
                append_chars(&mut out, &chars_of(" après "));
                append_chars(&mut out, &decimal_text(attempt as u64));
                append_chars(&mut out, &chars_of(" reprises"));
                let detail = text_of(&out);
                return RetryStep::Refuse(AppError::remote(provider, detail.as_str()));
            }
            RetryStep::Wait(backoff_ms(attempt))
        },
        Sent::Failed(e) => {
            if attempt >= MAX_RETRIES {
                return RetryStep::Refuse(AppError::remote(provider, e.as_str()));
            }
            RetryStep::Wait(backoff_ms(attempt))
        },
    }
}

/// Retries are bounded: once `MAX_RETRIES` retries were made, no decision
/// waits any more.
pub proof fn retries_are_bounded(provider: Seq<char>, sent: Sent, attempt: u32, step: RetryStep)
    requires
        attempt >= MAX_RETRIES,
        next_step(provider, sent, attempt, step),
    ensures
        !(step is Wait),
{
}

/// A refused authentication is never tried again.
pub proof fn refused_credentials_are_final(provider: Seq<char>, status: u16, attempt: u32, step: RetryStep)
    requires
        status == 401 || status == 403,
        next_step(provider, Sent::Answered(status), attempt, step),
    ensures
        step matches RetryStep::Refuse(AppError::Auth { .. }),
{
}

} // verus!
