//! Query-mode dispatch: resolving the user's hash choice, the k-mer
//! length and the strand mode into the one concrete hasher configuration
//! the run is monomorphized over. The width is chosen once per run from
//! `k`; nothing dispatches per record.

use vstd::prelude::*;

verus! {

/// The hash implementation the user asked for.
#[derive(Clone, Copy, PartialEq, Eq, Structural, Debug)]
pub enum HashType {
    Auto,
    SeqHash,
    RabinKarp32,
    RabinKarp64,
    RabinKarp128,
}

/// Storage width of the merging hash, chosen from `k`.
#[derive(Clone, Copy, PartialEq, Eq, Structural, Debug)]
pub enum HashWidth {
    U16,
    U32,
    U64,
    U128,
}

/// Family of the merging hash.
#[derive(Clone, Copy, PartialEq, Eq, Structural, Debug)]
pub enum HashFamily {
    SeqHash,
    RabinKarp,
}

/// The concrete hasher configuration a query run is built with.
#[derive(Clone, Copy, PartialEq, Eq, Structural, Debug)]
pub struct ResolvedHash {
    pub family: HashFamily,
    pub width: HashWidth,
    /// Whether the merging hash folds a k-mer with its reverse complement.
    pub canonical: bool,
    /// Whether the bucketing rolling hash folds strands.
    pub bucketing_canonical: bool,
}

/// Arguments of a query invocation, already parsed.
#[derive(Clone, PartialEq, Eq, Debug)]
pub struct QueryArgs {
    pub klen: usize,
    pub mlen: Option<usize>,
    pub forward_only: bool,
    pub hash_type: HashType,
    pub threads_count: usize,
}

/// A query plan: the resolved hasher and window lengths.
#[derive(Clone, Copy, PartialEq, Eq, Structural, Debug)]
pub struct QueryPlan {
    pub k: usize,
    pub m: usize,
    pub hash: ResolvedHash,
}

/// Selecting the sequence hash for a k over its limit is refused.
#[derive(Clone, Copy, PartialEq, Eq, Structural, Debug)]
pub enum QuerierError {
    KTooLargeForSeqHash,
}

/// The minimizer length used when the user gives none: a short window
/// that grows with `k` up to a fixed cap.
pub open spec fn best_m(k: int) -> int {
    if k < 12 {
        k
    } else {
        12
    }
}

pub fn compute_best_m(k: usize) -> (r: usize)
    ensures
        r == best_m(k as int),
{
    if k < 12 {
        k
    } else {
        12
    }
}

/// Auto resolves to the sequence hash where it fits, else to the widest
/// Rabin-Karp.
pub open spec fn resolve_auto(hash_type: HashType, k: int) -> HashType {
    if hash_type == HashType::Auto {
        if k <= 64 {
            HashType::SeqHash
        } else {
            HashType::RabinKarp128
        }
    } else {
        hash_type
    }
}

/// The width the sequence hash stores a k-mer in.
pub open spec fn seq_hash_width(k: int) -> HashWidth {
    if k <= 8 {
        HashWidth::U16
    } else if k <= 16 {
        HashWidth::U32
    } else if k <= 32 {
        HashWidth::U64
    } else {
        HashWidth::U128
    }
}

/// Exactly the configuration the dispatch selects. The sequence hash at
/// its smallest width always folds strands, whatever the strand mode; at
/// the other widths, and for Rabin-Karp, forward-only mode selects the
/// forward hashes.
pub open spec fn dispatch_spec(args_hash: HashType, k: int, forward_only: bool) -> Result<
    ResolvedHash,
    QuerierError,
> {
    let ht = resolve_auto(args_hash, k);
    match ht {
        HashType::SeqHash => {
            if k > 64 {
                Err(QuerierError::KTooLargeForSeqHash)
            } else if k <= 8 {
                Ok(ResolvedHash {
                    family: HashFamily::SeqHash,
                    width: HashWidth::U16,
                    canonical: true,
                    bucketing_canonical: true,
                })
            } else {
                Ok(ResolvedHash {
                    family: HashFamily::SeqHash,
                    width: seq_hash_width(k),
                    canonical: !forward_only,
                    bucketing_canonical: !forward_only,
                })
            }
        },
        HashType::RabinKarp32 => Ok(ResolvedHash {
            family: HashFamily::RabinKarp,
            width: HashWidth::U32,
            canonical: !forward_only,
            bucketing_canonical: !forward_only,
        }),
        HashType::RabinKarp64 => Ok(ResolvedHash {
            family: HashFamily::RabinKarp,
            width: HashWidth::U64,
            canonical: !forward_only,
            bucketing_canonical: !forward_only,
        }),
        HashType::RabinKarp128 => Ok(ResolvedHash {
            family: HashFamily::RabinKarp,
            width: HashWidth::U128,
            canonical: !forward_only,
            bucketing_canonical: !forward_only,
        }),
        HashType::Auto => Err(QuerierError::KTooLargeForSeqHash),  // unreachable after resolve
    }
}

/// Resolves the hash choice for a query run.
pub fn dispatch_querier_hash_type(args: &QueryArgs) -> (r: Result<ResolvedHash, QuerierError>)
    ensures
        r == dispatch_spec(args.hash_type, args.klen as int, args.forward_only),
{
    let ht = match args.hash_type {
        HashType::Auto => {
            if args.klen <= 64 {
                HashType::SeqHash
            } else {
                HashType::RabinKarp128
            }
        },
        x => x,
    };
    let fw = args.forward_only;
    match ht {
        HashType::SeqHash => {
            let k = args.klen;
            if k > 64 {
                Err(QuerierError::KTooLargeForSeqHash)
            } else if k <= 8 {
                Ok(ResolvedHash {
                    family: HashFamily::SeqHash,
                    width: HashWidth::U16,
                    canonical: true,
                    bucketing_canonical: true,
                })
            } else if k <= 16 {
                Ok(ResolvedHash {
                    family: HashFamily::SeqHash,
                    width: HashWidth::U32,
                    canonical: !fw,
                    bucketing_canonical: !fw,
                })
            } else if k <= 32 {
                Ok(ResolvedHash {
                    family: HashFamily::SeqHash,
                    width: HashWidth::U64,
                    canonical: !fw,
                    bucketing_canonical: !fw,
                })
            } else {
                Ok(ResolvedHash {
                    family: HashFamily::SeqHash,
                    width: HashWidth::U128,
                    canonical: !fw,
                    bucketing_canonical: !fw,
                })
            }
        },
        HashType::RabinKarp32 => Ok(ResolvedHash {
            family: HashFamily::RabinKarp,
            width: HashWidth::U32,
            canonical: !fw,
            bucketing_canonical: !fw,
        }),
        HashType::RabinKarp64 => Ok(ResolvedHash {
            family: HashFamily::RabinKarp,
            width: HashWidth::U64,
            canonical: !fw,
            bucketing_canonical: !fw,
        }),
        HashType::RabinKarp128 => Ok(ResolvedHash {
            family: HashFamily::RabinKarp,
            width: HashWidth::U128,
            canonical: !fw,
            bucketing_canonical: !fw,
        }),
        HashType::Auto => Err(QuerierError::KTooLargeForSeqHash),
    }
}

/// Builds the full query plan from the arguments: the resolved hasher,
/// `k`, and the user's minimizer length or the default heuristic.
pub fn run_querier_from_args(args: &QueryArgs) -> (r: Result<QueryPlan, QuerierError>)
    ensures
        match r {
            Ok(plan) => {
                &&& Ok::<ResolvedHash, QuerierError>(plan.hash) == dispatch_spec(
                    args.hash_type,
                    args.klen as int,
                    args.forward_only,
                )
                &&& plan.k == args.klen
                &&& plan.m == match args.mlen {
                    Some(m) => m as int,
                    None => best_m(args.klen as int),
                }
            },
            Err(e) => Err::<ResolvedHash, QuerierError>(e) == dispatch_spec(
                args.hash_type,
                args.klen as int,
                args.forward_only,
            ),
        },
{
    let hash = match dispatch_querier_hash_type(args) {
        Ok(h) => h,
        Err(e) => {
            return Err(e);
        },
    };
    let m = match args.mlen {
        Some(m) => m,
        None => compute_best_m(args.klen),
    };
    Ok(QueryPlan { k: args.klen, m, hash })
}

} // verus!
