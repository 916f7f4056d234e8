use unitig_pipeline::colors::ColorsMemMap;
use unitig_pipeline::executor::{AddressFactory, Executor, ExecutorType, effective_priority};
use unitig_pipeline::fasta::FastaFileSequencesStream;
use unitig_pipeline::kmers_transform::{
    AddressKind, InputBucketDesc, KmersTransformReader, analyze_counters, distribute_reads,
    plan_group_addresses,
};
use unitig_pipeline::packet::{Packet, PacketsPool};
use unitig_pipeline::querier::{
    HashFamily, HashType, HashWidth, QuerierError, QueryArgs, compute_best_m,
    dispatch_querier_hash_type, run_querier_from_args,
};

#[test]
fn address_ids_are_monotonic() {
    let mut f = AddressFactory::new();
    let a = f.generate_new_address(4);
    let b = f.generate_new_address(4);
    assert_eq!(a.executor_type_id, 4);
    assert_eq!(a.executor_internal_id, 0);
    assert_eq!(b.executor_internal_id, 1);
    assert_ne!(a, b);
}

#[test]
fn effective_priority_formula_and_saturation() {
    assert_eq!(effective_priority(3, 2, 10), 23);
    assert_eq!(effective_priority(u64::MAX, 1, 1), u64::MAX);
    assert_eq!(effective_priority(0, u64::MAX, u64::MAX), u64::MAX);
}

#[test]
fn packets_pool_accounts_for_every_body() {
    let mut pool: PacketsPool<InputBucketDesc> = PacketsPool::new(2, 9);
    assert_eq!(pool.get_available_items(), 2);
    let p1 = pool.alloc_packet().unwrap();
    let p2 = pool.alloc_packet().unwrap();
    assert!(pool.alloc_packet().is_none());
    assert_eq!(pool.get_available_items(), 0);
    assert!(!pool.wait_for_item_timeout(10));
    pool.return_packet(p1);
    assert!(pool.wait_for_item_timeout(10));
    pool.return_packet(p2);
    assert_eq!(pool.get_available_items(), 2);
}

#[test]
fn simple_packet_has_no_pool() {
    let p = Packet::new_simple(41u32);
    assert_eq!(p.object, 41);
    assert!(p.pool_tag.is_none());
}

#[test]
fn outlier_rule_flags_the_heavy_sub_bucket() {
    // nine small counts and one huge one: only the huge one is an outlier
    let counts = vec![10u64, 10, 10, 10, 10, 10, 10, 10, 10, 1000];
    let r = analyze_counters(&counts, 2);
    assert_eq!(r.len(), 10);
    for c in &r[0..9] {
        assert!(!c.is_outlier);
    }
    assert!(r[9].is_outlier);
    assert_eq!(r[9].count, 1000);
}

#[test]
fn uniform_counts_have_no_outlier() {
    let counts = vec![50u64; 8];
    let r = analyze_counters(&counts, 1);
    assert!(r.iter().all(|c| !c.is_outlier));
}

#[test]
fn group_plan_routes_outliers_to_resplitters() {
    let counters = analyze_counters(&vec![1u64, 1, 1, 1, 1, 1, 1, 1000], 2);
    let plan = plan_group_addresses(false, &counters, 3);
    assert_eq!(plan.len(), 8);
    assert_eq!(plan[7], AddressKind::Resplitter);
    for i in 0..7 {
        assert_eq!(plan[i], AddressKind::Processor);
    }
    // a resplit bucket never resplits again
    let plan2 = plan_group_addresses(true, &counters, 3);
    assert!(plan2.iter().all(|a| *a == AddressKind::Processor));
}

#[test]
fn reads_distribute_by_sub_bucket_in_order() {
    let buckets_of = vec![1usize, 0, 1, 2, 0];
    let r = distribute_reads(&buckets_of, 3);
    assert_eq!(r.len(), 3);
    assert_eq!(r[0], vec![1, 4]);
    assert_eq!(r[1], vec![0, 2]);
    assert_eq!(r[2], vec![3]);
}

#[test]
fn reader_executor_plans_its_group() {
    let mut reader = KmersTransformReader { second_buckets_count_log: 2, finished: false };
    assert_eq!(reader.executor_type(), ExecutorType::NeedsInitPacket);
    assert_eq!(reader.base_priority(), 0);
    assert_eq!(reader.packet_priority_multiplier(), 2);
    assert!(!reader.is_finished());
    let desc = InputBucketDesc {
        path: String::new(),
        sub_bucket_counters: analyze_counters(&vec![1u64, 1, 1, 500], 1),
        resplitted: false,
    };
    let sends = reader.execute(desc);
    assert_eq!(sends.len(), 1);
    assert_eq!(sends[0].1.len(), 4);
    assert_eq!(sends[0].1[3], AddressKind::Resplitter);
    assert!(reader.is_finished());
}

#[test]
fn colors_deduplicate_by_content() {
    let mut map = ColorsMemMap::new();
    let set1 = vec![1u32, 2, 3];
    let set2 = vec![4u32];
    let a = map.get_id(&set1);
    let b = map.get_id(&set2);
    let c = map.get_id(&set1);
    assert_eq!(a, 0);
    assert_eq!(b, 1);
    assert_eq!(c, a);
    assert_eq!(map.print_stats(), (2, 2));
}

#[test]
fn estimated_bases_halves_compressed_files() {
    assert_eq!(FastaFileSequencesStream::get_estimated_bases_count(1000, false), 1000);
    assert_eq!(FastaFileSequencesStream::get_estimated_bases_count(1000, true), 500);
    assert_eq!(FastaFileSequencesStream::new().opened_files, 0);
}

fn args(k: usize, fw: bool, ht: HashType) -> QueryArgs {
    QueryArgs { klen: k, mlen: None, forward_only: fw, hash_type: ht, threads_count: 1 }
}

#[test]
fn dispatch_widths_follow_k() {
    let r = dispatch_querier_hash_type(&args(8, false, HashType::SeqHash)).unwrap();
    assert_eq!(r.width, HashWidth::U16);
    let r = dispatch_querier_hash_type(&args(16, false, HashType::SeqHash)).unwrap();
    assert_eq!(r.width, HashWidth::U32);
    let r = dispatch_querier_hash_type(&args(32, false, HashType::SeqHash)).unwrap();
    assert_eq!(r.width, HashWidth::U64);
    let r = dispatch_querier_hash_type(&args(64, false, HashType::SeqHash)).unwrap();
    assert_eq!(r.width, HashWidth::U128);
    assert_eq!(r.family, HashFamily::SeqHash);
}

#[test]
fn dispatch_smallest_width_always_folds_strands() {
    // at the smallest width the dispatch uses the canonical pair even in
    // forward-only mode
    let r = dispatch_querier_hash_type(&args(8, true, HashType::SeqHash)).unwrap();
    assert!(r.canonical);
    assert!(r.bucketing_canonical);
    let r = dispatch_querier_hash_type(&args(16, true, HashType::SeqHash)).unwrap();
    assert!(!r.canonical);
}

#[test]
fn dispatch_auto_resolution() {
    let r = dispatch_querier_hash_type(&args(31, false, HashType::Auto)).unwrap();
    assert_eq!(r.family, HashFamily::SeqHash);
    let r = dispatch_querier_hash_type(&args(65, false, HashType::Auto)).unwrap();
    assert_eq!(r.family, HashFamily::RabinKarp);
    assert_eq!(r.width, HashWidth::U128);
}

#[test]
fn dispatch_rejects_wide_sequence_hash() {
    let r = dispatch_querier_hash_type(&args(65, false, HashType::SeqHash));
    assert_eq!(r.unwrap_err(), QuerierError::KTooLargeForSeqHash);
}

#[test]
fn query_plan_takes_user_minimizer_or_heuristic() {
    let mut a = args(21, false, HashType::Auto);
    let plan = run_querier_from_args(&a).unwrap();
    assert_eq!(plan.k, 21);
    assert_eq!(plan.m, compute_best_m(21));
    assert_eq!(plan.m, 12);
    a.mlen = Some(9);
    let plan = run_querier_from_args(&a).unwrap();
    assert_eq!(plan.m, 9);
    assert_eq!(compute_best_m(7), 7);
}
