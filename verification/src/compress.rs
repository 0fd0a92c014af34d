use vstd::prelude::*;

use std::io::Read;

verus! {

/// A compression or training call failed inside the compression library.
#[derive(Debug, Clone, Copy, PartialEq, Eq, Structural)]
pub enum CompressError {
    Failed,
}

// The compressor's outputs, named: with the level fixed and the library
// single-threaded, each is a function of the input bytes (and dictionary)
// alone.
pub uninterp spec fn compress_of(data: Seq<u8>) -> Seq<u8>;

pub uninterp spec fn dict_compress_of(data: Seq<u8>, dict: Seq<u8>) -> Seq<u8>;

/// Relies on zstd::encode_all at the default level: compresses the input
/// into one zstd frame, deterministically in the input bytes.
#[verifier::external_body]
pub fn zstd_compress(data: &Vec<u8>) -> (r: Result<Vec<u8>, CompressError>)
    ensures
        match r {
            Ok(v) => v@ == compress_of(data@),
            Err(_) => true,
        },
{
    zstd::encode_all(&data[..], 0).map_err(|_| CompressError::Failed)
}

/// Relies on zstd::decode_all: decompressing a frame that
/// zstd::encode_all produced yields exactly the bytes that were
/// compressed (zstd compression is lossless).
#[verifier::external_body]
pub fn zstd_decompress(data: &Vec<u8>) -> (r: Result<Vec<u8>, CompressError>)
    ensures
        forall|x: Seq<u8>|
            data@ == compress_of(x) ==> match r {
                Ok(v) => v@ == x,
                Err(_) => false,
            },
{
    zstd::decode_all(&data[..]).map_err(|_| CompressError::Failed)
}

/// Relies on zstd::bulk::Compressor::with_dictionary and
/// Compressor::compress at level 1: compresses the input with the given
/// dictionary, deterministically in the input and dictionary bytes.
#[verifier::external_body]
pub fn zstd_compress_dict(data: &Vec<u8>, dict: &Vec<u8>) -> (r: Result<Vec<u8>, CompressError>)
    ensures
        match r {
            Ok(v) => v@ == dict_compress_of(data@, dict@),
            Err(_) => true,
        },
{
    match zstd::bulk::Compressor::with_dictionary(1, &dict[..]) {
        Ok(mut c) => c.compress(&data[..]).map_err(|_| CompressError::Failed),
        Err(_) => Err(CompressError::Failed),
    }
}

/// Relies on zstd::stream::read::Decoder::with_dictionary: decompressing
/// with the same dictionary a frame compressed with it yields exactly the
/// bytes that were compressed.
#[verifier::external_body]
pub fn zstd_decompress_dict(data: &Vec<u8>, dict: &Vec<u8>) -> (r: Result<Vec<u8>, CompressError>)
    ensures
        forall|x: Seq<u8>|
            data@ == dict_compress_of(x, dict@) ==> match r {
                Ok(v) => v@ == x,
                Err(_) => false,
            },
{
    let cur = std::io::Cursor::new(&data[..]);
    match zstd::stream::read::Decoder::with_dictionary(cur, &dict[..]) {
        Ok(mut d) => {
            let mut out = Vec::new();
            match d.read_to_end(&mut out) {
                Ok(_) => Ok(out),
                Err(_) => Err(CompressError::Failed),
            }
        },
        Err(_) => Err(CompressError::Failed),
    }
}

/// The sample buffer, abstractly: each sample as its byte sequence, with
/// the sample boundaries kept (training weighs samples individually).
pub open spec fn buffer_model(v: Seq<Vec<u8>>) -> Seq<Seq<u8>> {
    v.map_values(|s: Vec<u8>| s@)
}

// The trained dictionary, named: ZDICT training runs a fixed deterministic
// algorithm over the concatenated samples, their boundaries and the
// capacity, so the result is a function of the samples and the size cap
// alone.
pub uninterp spec fn train_of(samples: Seq<Seq<u8>>, max: int) -> Seq<u8>;

/// Relies on zstd::dict::from_samples: trains a compression dictionary
/// from the samples, writing it into a buffer of `max_size` capacity, so
/// a returned dictionary never exceeds the requested size; or fails,
/// leaving the caller's state untouched.
#[verifier::external_body]
pub fn zstd_train(samples: &Vec<Vec<u8>>, max_size: usize) -> (r: Result<Vec<u8>, CompressError>)
    ensures
        match r {
            Ok(d) => d@ == train_of(buffer_model(samples@), max_size as int) && d@.len()
                <= max_size,
            Err(_) => true,
        },
{
    zstd::dict::from_samples(&samples[..], max_size).map_err(|_| CompressError::Failed)
}

// ============================================================
// The adaptive dictionary state and its training step.
// ============================================================
/// Process-wide dictionary state: a bounded ring of recent raw payload
/// samples, the current trained dictionary if any, and whether that
/// dictionary has already been shipped to the peer with a payload.
pub struct AdaptiveState {
    pub training_buffer: Vec<Vec<u8>>,
    pub encoder_dict: Option<Vec<u8>>,
    pub dict_sent: bool,
}

impl Default for AdaptiveState {
    /// The initial state: nothing sampled, no dictionary trained.
    fn default() -> (r: Self)
        ensures
            r.training_buffer@.len() == 0,
            r.encoder_dict is None,
            r.dict_sent == false,
    {
        AdaptiveState { training_buffer: Vec::new(), encoder_dict: None, dict_sent: false }
    }
}

/// Total bytes held by the first `n` samples.
pub open spec fn buffer_bytes_upto(s: Seq<Vec<u8>>, n: int) -> int
    decreases n,
{
    if n <= 0 {
        0
    } else {
        buffer_bytes_upto(s, n - 1) + s[n - 1]@.len()
    }
}

/// Total bytes held by the sample buffer.
pub open spec fn buffer_bytes(s: Seq<Vec<u8>>) -> int {
    buffer_bytes_upto(s, s.len() as int)
}

/// Sum the sample sizes. The sum of at most `usize::MAX` samples of at
/// most `usize::MAX` bytes each fits a `u128`.
pub fn buffer_total_bytes(buf: &Vec<Vec<u8>>) -> (r: u128)
    ensures
        r == buffer_bytes(buf@),
{
    let n = buf.len();
    let mut acc: u128 = 0;
    let mut i: usize = 0;
    while i < n
        invariant
            n == buf@.len(),
            0 <= i <= n,
            acc == buffer_bytes_upto(buf@, i as int),
            acc <= (i as int) * (usize::MAX as int),
        decreases n - i,
    {
        let len = buf[i].len();
        proof {
            assert((i as int + 1) * (usize::MAX as int) == (i as int) * (usize::MAX as int) + (
            usize::MAX as int)) by (nonlinear_arith);
            assert((i as int) * (usize::MAX as int) <= (usize::MAX as int) * (usize::MAX as int))
                by (nonlinear_arith)
                requires
                    0 <= i as int <= usize::MAX as int,
            ;
            assert((usize::MAX as int) * (usize::MAX as int) < u128::MAX as int)
                by (nonlinear_arith)
                requires
                    usize::MAX as int <= u64::MAX as int,
            ;
        }
        acc = acc + (len as u128);
        i += 1;
    }
    acc
}

/// Threshold: the least number of buffered samples training accepts.
pub open spec fn min_samples_spec(dev: bool) -> int {
    if dev {
        5
    } else {
        50
    }
}

/// Threshold: the least total sample volume training accepts.
pub open spec fn min_total_spec(dev: bool) -> int {
    if dev {
        2048
    } else {
        102400
    }
}

/// Threshold: the least average sample size training accepts.
pub open spec fn min_avg_spec(dev: bool) -> int {
    if dev {
        50
    } else {
        500
    }
}

/// The most samples kept after a successful training pass trims the ring.
pub open spec fn max_buffer_spec(dev: bool) -> int {
    if dev {
        20
    } else {
        200
    }
}

/// The dictionary size a training pass asks for, given the buffered
/// volume: in development mode at most 8 KiB and half the volume, at
/// least 512 bytes; in production at most 64 KiB, a hundredth and a tenth
/// of the volume, at least 1 KiB.
pub open spec fn dict_size_spec(dev: bool, total: int) -> int {
    if dev {
        let capped = if 8192 < total / 2 {
            8192
        } else {
            total / 2
        };
        if capped < 512 {
            512
        } else {
            capped
        }
    } else {
        let capped = if 65536 < total / 100 {
            65536
        } else {
            total / 100
        };
        let m = if capped < total / 10 {
            capped
        } else {
            total / 10
        };
        if m < 1024 {
            1024
        } else {
            m
        }
    }
}

/// How one training request ended.
#[derive(Debug, Clone, Copy, PartialEq, Eq, Structural)]
pub enum TrainOutcome {
    EmptyBuffer,
    TooFewSamples,
    TooFewBytes,
    SamplesTooSmall,
    Failed,
    Trained,
}

/// Run one dictionary-training pass over the sample buffer.
///
/// Training happens only when the buffer holds enough samples, enough
/// total bytes, and a large enough average sample; otherwise the state is
/// unchanged and the outcome says which threshold failed. On success the
/// new dictionary replaces the old one, is marked not yet sent, and the
/// buffer is trimmed to its most recent half-capacity when over capacity.
/// A failed training call leaves everything unchanged.
pub fn trigger_retraining(state: &mut AdaptiveState, dev_mode: bool) -> (r: TrainOutcome)
    ensures
        ({
            let cnt = old(state).training_buffer@.len() as int;
            let total = buffer_bytes(old(state).training_buffer@);
            &&& (r == TrainOutcome::EmptyBuffer <==> cnt == 0)
            &&& (r == TrainOutcome::TooFewSamples <==> cnt > 0 && cnt < min_samples_spec(dev_mode))
            &&& (r == TrainOutcome::TooFewBytes <==> cnt >= min_samples_spec(dev_mode) && cnt > 0
                && total < min_total_spec(dev_mode))
            &&& (r == TrainOutcome::SamplesTooSmall <==> cnt >= min_samples_spec(dev_mode) && cnt
                > 0 && total >= min_total_spec(dev_mode) && total / cnt < min_avg_spec(dev_mode))
            &&& (r == TrainOutcome::EmptyBuffer || r == TrainOutcome::TooFewSamples || r
                == TrainOutcome::TooFewBytes || r == TrainOutcome::SamplesTooSmall || r
                == TrainOutcome::Failed ==> *final(state) == *old(state))
            &&& (r == TrainOutcome::Trained ==> {
                &&& (final(state).encoder_dict matches Some(d) && d@ == train_of(
                    buffer_model(old(state).training_buffer@),
                    dict_size_spec(dev_mode, total),
                ) && d@.len() <= dict_size_spec(dev_mode, total))
                &&& final(state).dict_sent == false
                &&& if cnt > max_buffer_spec(dev_mode) {
                    final(state).training_buffer@ == old(state).training_buffer@.subrange(
                        cnt - max_buffer_spec(dev_mode) / 2,
                        cnt,
                    )
                } else {
                    final(state).training_buffer == old(state).training_buffer
                }
            })
        }),
{
    if state.training_buffer.len() == 0 {
        return TrainOutcome::EmptyBuffer;
    }
    let count = state.training_buffer.len();
    let total = buffer_total_bytes(&state.training_buffer);
    let min_samples: usize = if dev_mode {
        5
    } else {
        50
    };
    let min_total: u128 = if dev_mode {
        2048
    } else {
        102400
    };
    let min_avg: u128 = if dev_mode {
        50
    } else {
        500
    };
    if count < min_samples {
        return TrainOutcome::TooFewSamples;
    }
    if total < min_total {
        return TrainOutcome::TooFewBytes;
    }
    let avg = total / (count as u128);
    if avg < min_avg {
        return TrainOutcome::SamplesTooSmall;
    }
    let dict_size: usize = if dev_mode {
        let half = total / 2;
        let capped: u128 = if 8192 < half {
            8192
        } else {
            half
        };
        let floored: u128 = if capped < 512 {
            512
        } else {
            capped
        };
        floored as usize
    } else {
        let optimal = total / 100;
        let capped: u128 = if 65536 < optimal {
            65536
        } else {
            optimal
        };
        let tenth = total / 10;
        let m: u128 = if capped < tenth {
            capped
        } else {
            tenth
        };
        let floored: u128 = if m < 1024 {
            1024
        } else {
            m
        };
        floored as usize
    };
    assert(dict_size as int == dict_size_spec(dev_mode, buffer_bytes(state.training_buffer@)));
    match zstd_train(&state.training_buffer, dict_size) {
        Ok(dict) => {
            state.encoder_dict = Some(dict);
            state.dict_sent = false;
            let max_buffer: usize = if dev_mode {
                20
            } else {
                200
            };
            if state.training_buffer.len() > max_buffer {
                let keep = max_buffer / 2;
                let at = state.training_buffer.len() - keep;
                let tail = state.training_buffer.split_off(at);
                state.training_buffer = tail;
            }
            TrainOutcome::Trained
        },
        Err(_) => TrainOutcome::Failed,
    }
}

} // verus!
