use multiway_join::attrs::relevant_attributes;
use multiway_join::cache::{ArrangementCache, ArrangementKey};
use multiway_join::join::{extract_map, DeltaPlan, MultiwayJoin, PlanError, SourcePlan};
use multiway_join::keys::determine_keys_priors;
use multiway_join::order::plan_join_order;
use multiway_join::timestamp::{enter_time, AltNeu};

fn sources(list: &[(u64, usize)]) -> Vec<SourcePlan> {
    list.iter().map(|&(plan, arity)| SourcePlan { plan, arity }).collect()
}

/// R(a,b) = 0, S(b,c) = 1, T(c,a) = 2 with R.b=S.b, S.c=T.c, T.a=R.a and
/// results [R.a, S.c].
fn triangle() -> MultiwayJoin {
    MultiwayJoin {
        results: vec![(0, 0), (1, 1)],
        sources: sources(&[(10, 2), (11, 2), (12, 2)]),
        equalities: vec![vec![(1, 0), (0, 1)], vec![(1, 1), (0, 2)], vec![(1, 2), (0, 0)]],
    }
}

/// The same triangle where R and S carry a third column holding a copy of
/// R.a and of S.c, and the results read those columns.
fn triangle_payload() -> MultiwayJoin {
    MultiwayJoin {
        results: vec![(2, 0), (2, 1)],
        sources: sources(&[(10, 3), (11, 3), (12, 2)]),
        equalities: vec![vec![(1, 0), (0, 1)], vec![(1, 1), (0, 2)], vec![(1, 2), (0, 0)]],
    }
}

#[test]
fn relevant_attributes_sorted_and_deduplicated() {
    let results = vec![(2, 1), (0, 0), (2, 1)];
    let eqs = vec![vec![(0, 0), (1, 1)], vec![(3, 0)]];
    assert_eq!(relevant_attributes(&results, &eqs), vec![(0, 0), (1, 1), (2, 1), (3, 0)]);
    assert_eq!(relevant_attributes(&[], &[]), vec![]);
}

#[test]
fn join_order_follows_constraints() {
    let eqs = triangle().equalities;
    assert_eq!(plan_join_order(0, &eqs), vec![0, 1, 2]);
    assert_eq!(plan_join_order(1, &eqs), vec![1, 0, 2]);
    assert_eq!(plan_join_order(2, &eqs), vec![2, 1, 0]);
}

#[test]
fn join_order_needs_repeated_scans() {
    // 0-1 is only reachable after 1-2 has been seen in a later scan.
    let eqs = vec![vec![(0, 0), (0, 1)], vec![(1, 1), (0, 2)], vec![(0, 3), (1, 2)]];
    assert_eq!(plan_join_order(3, &eqs), vec![3, 2, 1, 0]);
}

#[test]
fn join_order_without_constraints_is_seed_alone() {
    assert_eq!(plan_join_order(4, &[]), vec![4]);
    let eqs = vec![vec![(0, 0), (0, 1)]];
    assert_eq!(plan_join_order(2, &eqs), vec![2]);
}

#[test]
fn keys_and_priors_of_triangle_steps() {
    let eqs = triangle().equalities;
    let (keys, priors) = determine_keys_priors(1, &eqs, &[(0, 0), (1, 0)]);
    assert_eq!((keys, priors), (vec![0], vec![1]));
    let (keys, priors) = determine_keys_priors(2, &eqs, &[(0, 0), (1, 0), (1, 1)]);
    assert_eq!((keys, priors), (vec![0, 1], vec![2, 0]));
    let (keys, priors) = determine_keys_priors(2, &eqs, &[]);
    assert!(keys.is_empty() && priors.is_empty());
}

#[test]
fn keys_and_priors_use_first_matching_position() {
    let eqs = vec![vec![(0, 0), (5, 1), (1, 0), (7, 1)]];
    let (keys, priors) = determine_keys_priors(1, &eqs, &[(3, 2), (1, 0), (0, 0)]);
    assert_eq!(keys, vec![5, 7]);
    assert_eq!(priors, vec![1, 1]);
    assert_eq!(keys.len(), priors.len());
}

#[test]
fn alt_neu_order() {
    assert!(AltNeu::alt(3).less_than(&AltNeu::neu(3)));
    assert!(AltNeu::neu(3).less_than(&AltNeu::alt(4)));
    assert!(!AltNeu::neu(3).less_equal(&AltNeu::alt(3)));
    assert!(AltNeu::neu(3).less_equal(&AltNeu::neu(3)));
    assert!(!AltNeu::neu(3).less_than(&AltNeu::neu(3)));
    assert_eq!(AltNeu::neu(9).outer(), 9);
    assert_eq!(enter_time(0, 2, 5), AltNeu::alt(5));
    assert_eq!(enter_time(3, 2, 5), AltNeu::neu(5));
}

#[test]
fn exactly_one_branch_sees_a_concurrent_change() {
    for i in 0..4usize {
        for j in 0..4usize {
            if i != j {
                let i_sees_j = enter_time(j, i, 7).less_equal(&AltNeu::alt(7));
                let j_sees_i = enter_time(i, j, 7).less_equal(&AltNeu::alt(7));
                assert!(i_sees_j != j_sees_i);
                assert_eq!(i_sees_j, j < i);
            }
        }
    }
}

#[test]
fn cache_shares_equal_requests() {
    let mut cache = ArrangementCache::new();
    let a = cache.fetch_or_build_keyed(5, vec![0, 1], vec![0]);
    let b = cache.fetch_or_build_keyed(5, vec![0, 1], vec![0]);
    let c = cache.fetch_or_build_keyed(5, vec![0, 1], vec![1]);
    let d = cache.fetch_or_build_unkeyed(5);
    let e = cache.fetch_or_build_unkeyed(5);
    assert_eq!(a, b);
    assert_ne!(a, c);
    assert_eq!(d, e);
    assert_ne!(d, a);
    assert_eq!(cache.len(), 3);
    assert_eq!(cache.get(&ArrangementKey::keyed(5, vec![0, 1], vec![1])), Some(c));
    assert_eq!(cache.get(&ArrangementKey::unkeyed(6)), None);
    assert!(ArrangementKey::unkeyed(5).same(&ArrangementKey::unkeyed(5)));
    assert!(!ArrangementKey::unkeyed(5).same(&ArrangementKey::keyed(5, vec![], vec![])));
}

#[test]
fn extract_map_positions_and_error() {
    let attrs = vec![(0, 0), (1, 0), (1, 1)];
    assert_eq!(extract_map(&vec![(1, 1), (0, 0), (1, 1)], &[], &attrs), Ok(vec![2, 0, 2]));
    assert_eq!(extract_map(&vec![(0, 2)], &[], &attrs), Err(PlanError::UnresolvedResult));
    let eqs = vec![vec![(5, 5)], vec![(0, 2), (1, 1)]];
    assert_eq!(extract_map(&vec![(0, 2)], &eqs, &attrs), Ok(vec![2]));
    assert_eq!(extract_map(&vec![(5, 5)], &eqs, &attrs), Err(PlanError::UnresolvedResult));
}

#[test]
fn validate_errors() {
    let mut j = triangle();
    assert_eq!(j.validate(), Ok(()));
    j.results.push((0, 3));
    assert_eq!(j.validate(), Err(PlanError::SourceOutOfRange((0, 3))));
    let mut j = triangle();
    j.results.push((2, 1));
    assert_eq!(j.validate(), Err(PlanError::AttributeOutOfRange((2, 1))));
    let mut j = triangle();
    j.equalities[0].push((0, 5));
    assert_eq!(j.validate(), Err(PlanError::SourceOutOfRange((0, 5))));
    let mut j = triangle();
    j.equalities[1].push((9, 2));
    assert_eq!(j.validate(), Err(PlanError::AttributeOutOfRange((9, 2))));
    let mut j = triangle();
    j.equalities.push(vec![(0, 2), (1, 1)]);
    assert_eq!(j.validate(), Err(PlanError::SharedAttribute((1, 1))));
}

#[test]
fn disconnected_joins_are_refused() {
    let mut cache = ArrangementCache::new();
    let j = MultiwayJoin { results: vec![(0, 0)], sources: sources(&[(1, 1), (2, 1)]), equalities: vec![] };
    assert!(matches!(j.plan_delta_queries(&mut cache), Err(PlanError::Disconnected)));
    let j = MultiwayJoin {
        results: vec![(1, 0)],
        sources: sources(&[(1, 2), (2, 2)]),
        equalities: vec![vec![(0, 0), (0, 1)]],
    };
    assert!(j.plan_delta_queries(&mut cache).is_ok());
    // In the delta query of source 1, R.0 is only a join key: its value is
    // read from S.0.
    let j = MultiwayJoin {
        results: vec![(0, 0)],
        sources: sources(&[(1, 2), (2, 2)]),
        equalities: vec![vec![(0, 0), (0, 1)]],
    };
    let plan = j.plan_delta_queries(&mut cache).ok().unwrap();
    assert_eq!(plan.branches[1].attributes, vec![(0, 1)]);
    assert_eq!(plan.branches[1].extract, vec![0]);
    let j = MultiwayJoin { results: vec![(4, 0)], sources: sources(&[(1, 5)]), equalities: vec![] };
    assert!(j.plan_delta_queries(&mut cache).is_ok());
    let j = MultiwayJoin {
        results: vec![(1, 1)],
        sources: sources(&[(1, 2), (2, 2)]),
        equalities: vec![vec![(0, 0), (0, 1), (0, 0)]],
    };
    assert!(matches!(j.plan_delta_queries(&mut cache), Ok(_)));
}

#[test]
fn triangle_results_resolve_through_equalities() {
    // In the delta query of T, R.a and S.c are only join keys; their values
    // are read from T.a and T.c, which the same constraints name.
    let mut cache = ArrangementCache::new();
    let plan = triangle().plan_delta_queries(&mut cache).ok().unwrap();
    assert_eq!(plan.branches[0].attributes, vec![(0, 0), (1, 0), (1, 1)]);
    assert_eq!(plan.branches[0].extract, vec![0, 2]);
    assert_eq!(plan.branches[1].attributes, vec![(0, 1), (1, 1), (0, 0)]);
    assert_eq!(plan.branches[1].extract, vec![2, 1]);
    assert_eq!(plan.branches[2].attributes, vec![(0, 2), (1, 2), (0, 1)]);
    assert_eq!(plan.branches[2].extract, vec![1, 0]);
}

#[test]
fn triangle_plan() {
    let mut cache = ArrangementCache::new();
    let plan = triangle_payload().plan_delta_queries(&mut cache).ok().unwrap();
    assert_eq!(plan.relevant, vec![(0, 0), (0, 1), (0, 2), (1, 0), (1, 1), (1, 2), (2, 0), (2, 1)]);
    let b = &plan.branches[0];
    assert_eq!(b.initial, vec![(0, 0), (1, 0), (2, 0)]);
    assert_eq!(b.order, vec![0, 1, 2]);
    assert_eq!(b.steps[0].relation, 1);
    assert_eq!(b.steps[0].keys, vec![0]);
    assert_eq!(b.steps[0].priors, vec![1]);
    assert_eq!(b.steps[0].vals, vec![(1, 1), (2, 1)]);
    assert_eq!(b.steps[0].projection, vec![0, 1, 2]);
    assert_eq!(b.steps[0].prefix_len, 3);
    assert!(b.steps[0].neu);
    assert_eq!(b.steps[1].relation, 2);
    assert_eq!(b.steps[1].keys, vec![0, 1]);
    assert_eq!(b.steps[1].priors, vec![3, 0]);
    assert!(b.steps[1].vals.is_empty());
    assert_eq!(b.steps[1].prefix_len, 5);
    assert_eq!(b.attributes, vec![(0, 0), (1, 0), (2, 0), (1, 1), (2, 1)]);
    assert_eq!(b.extract, vec![2, 4]);
    let b2 = &plan.branches[2];
    assert_eq!(b2.order, vec![2, 1, 0]);
    assert!(!b2.steps[0].neu && !b2.steps[1].neu);
    assert_eq!(b2.steps[1].keys, vec![1, 0]);
    assert_eq!(b2.steps[1].priors, vec![2, 1]);
    assert_eq!(b2.attributes, vec![(0, 2), (1, 2), (0, 1), (2, 1), (2, 0)]);
    assert_eq!(b2.extract, vec![4, 3]);
    // T arranged by [c, a] serves the delta queries of R and of S alike.
    assert_eq!(plan.branches[0].steps[1].arrangement, plan.branches[1].steps[1].arrangement);
    assert_eq!(cache.len(), 8);
    // Planning again shares every arrangement.
    let again = triangle_payload().plan_delta_queries(&mut cache).ok().unwrap();
    assert_eq!(cache.len(), 8);
    assert_eq!(again.branches[2].steps[1].arrangement, plan.branches[2].steps[1].arrangement);
}

#[test]
fn self_join_shares_the_source_arrangement() {
    let mut cache = ArrangementCache::new();
    let j = MultiwayJoin {
        results: vec![(0, 0), (1, 1)],
        sources: sources(&[(7, 2), (7, 2)]),
        equalities: vec![vec![(1, 0), (0, 1)]],
    };
    let plan = j.plan_delta_queries(&mut cache).ok().unwrap();
    assert_eq!(plan.branches[0].changes, plan.branches[1].changes);
}

type Update = (Vec<u64>, u64, i64);

/// Runs the planned delta queries over the updates of each source, as a
/// dataflow would: each change looks up the other relations' updates at or
/// before its own refined time, and results are counted at outer times.
fn run(plan: &DeltaPlan, updates: &[Vec<Update>]) -> Vec<(Vec<u64>, u64, i64)> {
    let mut out: Vec<(Vec<u64>, u64, i64)> = Vec::new();
    for b in plan.branches.iter() {
        for (tuple, t, d) in updates[b.source].iter() {
            let start: Vec<u64> = b.initial.iter().map(|&(a, _)| tuple[a]).collect();
            let mut rows = vec![(start, *t, *d)];
            for st in b.steps.iter() {
                let mut next = Vec::new();
                for (row, t, d) in rows.iter() {
                    for (other, t2, d2) in updates[st.relation].iter() {
                        let seen = enter_time(st.relation, b.source, *t2).less_equal(&AltNeu::alt(*t));
                        let hit = st.keys.iter().zip(st.priors.iter()).all(|(&k, &p)| other[k] == row[p]);
                        if seen && hit {
                            let mut r = row.clone();
                            r.extend(st.vals.iter().map(|&(a, _)| other[a]));
                            next.push((r, *t, d * d2));
                        }
                    }
                }
                rows = next;
            }
            for (row, t, d) in rows {
                out.push((b.extract.iter().map(|&i| row[i]).collect(), t, d));
            }
        }
    }
    out
}

/// Multiplicity of `tuple` accumulated up to and including outer time `t`.
fn count_at(out: &[(Vec<u64>, u64, i64)], tuple: &[u64], t: u64) -> i64 {
    out.iter().filter(|(r, s, _)| r.as_slice() == tuple && *s <= t).map(|(_, _, d)| d).sum()
}

#[test]
fn triangle_inserted_together_counts_once_and_deletion_retracts() {
    let mut cache = ArrangementCache::new();
    let plan = triangle().plan_delta_queries(&mut cache).ok().unwrap();
    for deleted in 0..3usize {
        let mut updates: Vec<Vec<Update>> = vec![
            vec![(vec![1, 2], 1, 1)],
            vec![(vec![2, 3], 1, 1)],
            vec![(vec![3, 1], 1, 1)],
        ];
        let gone = updates[deleted][0].0.clone();
        updates[deleted].push((gone, 2, -1));
        let out = run(&plan, &updates);
        assert_eq!(count_at(&out, &[1, 3], 1), 1);
        assert_eq!(count_at(&out, &[1, 3], 2), 0);
        assert_eq!(out.iter().filter(|(r, _, _)| r != &vec![1, 3]).count(), 0);
    }
}

#[test]
fn insert_and_delete_in_one_round_cancel() {
    let mut cache = ArrangementCache::new();
    let plan = triangle().plan_delta_queries(&mut cache).ok().unwrap();
    let updates: Vec<Vec<Update>> = vec![
        vec![(vec![1, 2], 1, 1), (vec![1, 2], 1, -1)],
        vec![(vec![2, 3], 0, 1)],
        vec![(vec![3, 1], 0, 1), (vec![3, 1], 1, 1), (vec![3, 1], 1, -1)],
    ];
    let out = run(&plan, &updates);
    assert_eq!(count_at(&out, &[1, 3], 0), 0);
    assert_eq!(count_at(&out, &[1, 3], 1), 0);
}

#[test]
fn concurrent_pair_counts_once() {
    let mut cache = ArrangementCache::new();
    let j = MultiwayJoin {
        results: vec![(0, 0), (1, 1)],
        sources: sources(&[(1, 2), (2, 2)]),
        equalities: vec![vec![(1, 0), (0, 1)]],
    };
    let plan = j.plan_delta_queries(&mut cache).ok().unwrap();
    let updates: Vec<Vec<Update>> = vec![vec![(vec![4, 5], 3, 1)], vec![(vec![5, 6], 3, 1)]];
    let out = run(&plan, &updates);
    assert_eq!(out, vec![(vec![4, 6], 3, 1)]);
}

#[test]
fn maintained_output_matches_recomputation() {
    let mut cache = ArrangementCache::new();
    let plan = triangle_payload().plan_delta_queries(&mut cache).ok().unwrap();
    let mut updates: Vec<Vec<Update>> = vec![Vec::new(), Vec::new(), Vec::new()];
    let mut seed: u64 = 17;
    for step in 0..60u64 {
        seed = seed.wrapping_mul(6364136223846793005).wrapping_add(1442695040888963407);
        let rel = ((seed >> 33) % 3) as usize;
        let x = (seed >> 40) % 3;
        let y = (seed >> 50) % 3;
        let d = if (seed >> 60) % 3 == 0 { -1 } else { 1 };
        let tuple = if rel == 2 { vec![x, y] } else { vec![x, y, (seed >> 20) % 2] };
        updates[rel].push((tuple, step / 7, d));
    }
    let out = run(&plan, &updates);
    for t in 0..9u64 {
        for a in 0..3u64 {
            for c in 0..3u64 {
                let mut expected: i64 = 0;
                for (r, tr, dr) in updates[0].iter().filter(|u| u.1 <= t) {
                    for (s, ts, ds) in updates[1].iter().filter(|u| u.1 <= t) {
                        for (u, tu, du) in updates[2].iter().filter(|u| u.1 <= t) {
                            let _ = (tr, ts, tu);
                            if r[1] == s[0] && s[1] == u[0] && u[1] == r[0] && r[2] == a && s[2] == c {
                                expected += dr * ds * du;
                            }
                        }
                    }
                }
                assert_eq!(count_at(&out, &[a, c], t), expected);
            }
        }
    }
}

#[test]
fn join_order_is_deterministic() {
    let eqs = vec![vec![(0, 2), (1, 0)], vec![(2, 0), (0, 3), (1, 1)], vec![(5, 1), (4, 2)]];
    let first = plan_join_order(0, &eqs);
    assert_eq!(first, plan_join_order(0, &eqs));
    assert_eq!(first, vec![0, 2, 3, 1]);
}

#[test]
fn maintained_join_attribute_results_match_recomputation() {
    let mut cache = ArrangementCache::new();
    let plan = triangle().plan_delta_queries(&mut cache).ok().unwrap();
    let mut updates: Vec<Vec<Update>> = vec![Vec::new(), Vec::new(), Vec::new()];
    let mut seed: u64 = 5;
    for step in 0..60u64 {
        seed = seed.wrapping_mul(6364136223846793005).wrapping_add(1442695040888963407);
        let rel = ((seed >> 33) % 3) as usize;
        let x = (seed >> 40) % 3;
        let y = (seed >> 50) % 3;
        let d = if (seed >> 60) % 3 == 0 { -1 } else { 1 };
        updates[rel].push((vec![x, y], step / 7, d));
    }
    let out = run(&plan, &updates);
    for t in 0..9u64 {
        for a in 0..3u64 {
            for c in 0..3u64 {
                let mut expected: i64 = 0;
                for (r, _, dr) in updates[0].iter().filter(|u| u.1 <= t) {
                    for (s, _, ds) in updates[1].iter().filter(|u| u.1 <= t) {
                        for (u, _, du) in updates[2].iter().filter(|u| u.1 <= t) {
                            if r[1] == s[0] && s[1] == u[0] && u[1] == r[0] && r[0] == a && s[1] == c {
                                expected += dr * ds * du;
                            }
                        }
                    }
                }
                assert_eq!(count_at(&out, &[a, c], t), expected);
            }
        }
    }
}
