use xor_chain::{ChainEnd, NodeStore};

#[test]
fn it_works() {
    let mut store = NodeStore::new();
    let (a, b) = ChainEnd::new(&mut store, vec![0, 1, 2]);
    let (c, d) = ChainEnd::new(&mut store, vec![3, 4, 5]);

    // We now have these chains:
    // a - 0 - 1 - 2 - b
    // c - 3 - 4 - 5 - d

    // We connect b to d, creating one long chain.
    assert!(b.connect(d, &mut store).is_none());

    // We now have this chain:
    // a - 0 - 1 - 2 - 5 - 4 - 3 - c

    // We connect c to a, creating a loop. The contents of the loop are returned.
    assert_eq!(
        c.connect(a, &mut store).unwrap().collect(&mut store),
        vec![0, 1, 2, 5, 4, 3]
    );
}

#[test]
fn closing_second_end_onto_first_yields_original_order() {
    let mut store = NodeStore::new();
    let (a, b) = ChainEnd::new(&mut store, vec![10, 20, 30, 40]);
    let contents = b.connect(a, &mut store).unwrap().collect(&mut store);
    assert_eq!(contents, vec![10, 20, 30, 40]);
}

#[test]
fn closing_first_end_onto_second_yields_reverse_order() {
    let mut store = NodeStore::new();
    let (a, b) = ChainEnd::new(&mut store, vec![10, 20, 30, 40]);
    let contents = a.connect(b, &mut store).unwrap().collect(&mut store);
    assert_eq!(contents, vec![40, 30, 20, 10]);
}

#[test]
fn empty_chain_yields_nothing_and_frees_both_ends() {
    let mut store: NodeStore<u32> = NodeStore::new();
    assert_eq!(store.live_nodes(), 0);
    let (a, b) = ChainEnd::new(&mut store, Vec::new());
    assert_eq!(store.live_nodes(), 2);
    let mut contents = b.connect(a, &mut store).unwrap();
    assert_eq!(store.live_nodes(), 1);
    assert_eq!(contents.next(&mut store), None);
    assert_eq!(store.live_nodes(), 1);
    contents.drop(&mut store);
    assert_eq!(store.live_nodes(), 0);
}

#[test]
fn empty_chain_collects_to_empty_vector() {
    let mut store: NodeStore<u32> = NodeStore::new();
    let (a, b) = ChainEnd::new(&mut store, Vec::new());
    let contents = a.connect(b, &mut store).unwrap().collect(&mut store);
    assert_eq!(contents, Vec::<u32>::new());
    assert_eq!(store.live_nodes(), 0);
}

#[test]
fn single_value_chain() {
    let mut store = NodeStore::new();
    let (a, b) = ChainEnd::new(&mut store, vec![7]);
    assert_eq!(store.live_nodes(), 3);
    let mut contents = a.connect(b, &mut store).unwrap();
    assert_eq!(contents.next(&mut store), Some(7));
    assert_eq!(contents.next(&mut store), None);
    contents.drop(&mut store);
    assert_eq!(store.live_nodes(), 0);
}

#[test]
fn different_chains_connect_to_none_same_chain_to_some() {
    let mut store = NodeStore::new();
    let (a, b) = ChainEnd::new(&mut store, vec![1]);
    let (c, d) = ChainEnd::new(&mut store, vec![2]);
    assert!(a.connect(c, &mut store).is_none());
    // b and d are now the ends of one chain
    let contents = b.connect(d, &mut store);
    assert!(contents.is_some());
    contents.unwrap().drop(&mut store);
    assert_eq!(store.live_nodes(), 0);
}

fn join_and_close(join: (usize, usize), close_first_on_second: bool) -> Vec<i32> {
    let mut store = NodeStore::new();
    let (a1, b1) = ChainEnd::new(&mut store, vec![1, 2, 3]);
    let (a2, b2) = ChainEnd::new(&mut store, vec![7, 8]);
    // what is joined, and what is left: first chain's, then second chain's
    let (x, rest1) = if join.0 == 0 { (a1, b1) } else { (b1, a1) };
    let (y, rest2) = if join.1 == 0 { (a2, b2) } else { (b2, a2) };
    assert!(x.connect(y, &mut store).is_none());
    let contents = if close_first_on_second {
        rest1.connect(rest2, &mut store)
    } else {
        rest2.connect(rest1, &mut store)
    };
    let values = contents.unwrap().collect(&mut store);
    assert_eq!(store.live_nodes(), 0);
    values
}

#[test]
fn joined_tail_to_tail() {
    // a1 - 1 2 3 - b1 = b2 - 8 7 - a2
    assert_eq!(join_and_close((1, 1), false), vec![1, 2, 3, 8, 7]);
    assert_eq!(join_and_close((1, 1), true), vec![7, 8, 3, 2, 1]);
}

#[test]
fn joined_tail_to_head() {
    // a1 - 1 2 3 - b1 = a2 - 7 8 - b2
    assert_eq!(join_and_close((1, 0), false), vec![1, 2, 3, 7, 8]);
    assert_eq!(join_and_close((1, 0), true), vec![8, 7, 3, 2, 1]);
}

#[test]
fn joined_head_to_tail() {
    // b1 - 3 2 1 - a1 = b2 - 8 7 - a2
    assert_eq!(join_and_close((0, 1), false), vec![3, 2, 1, 8, 7]);
    assert_eq!(join_and_close((0, 1), true), vec![7, 8, 1, 2, 3]);
}

#[test]
fn joined_head_to_head() {
    // b1 - 3 2 1 - a1 = a2 - 7 8 - b2
    assert_eq!(join_and_close((0, 0), false), vec![3, 2, 1, 7, 8]);
    assert_eq!(join_and_close((0, 0), true), vec![8, 7, 1, 2, 3]);
}

#[test]
fn splice_is_the_same_whichever_end_is_named_first() {
    let mut store = NodeStore::new();
    let (a, b) = ChainEnd::new(&mut store, vec![0, 1, 2]);
    let (c, d) = ChainEnd::new(&mut store, vec![3, 4, 5]);
    assert!(d.connect(b, &mut store).is_none());
    assert_eq!(
        c.connect(a, &mut store).unwrap().collect(&mut store),
        vec![0, 1, 2, 5, 4, 3]
    );
}

#[test]
fn splice_with_empty_chains() {
    let mut store = NodeStore::new();
    let (a, b) = ChainEnd::new(&mut store, Vec::new());
    let (c, d) = ChainEnd::new(&mut store, vec![1, 2]);
    let (e, f) = ChainEnd::new(&mut store, Vec::new());
    assert_eq!(store.live_nodes(), 8);
    // a = b - c 1 2 d - e = f
    assert!(b.connect(c, &mut store).is_none());
    assert_eq!(store.live_nodes(), 6);
    assert!(e.connect(d, &mut store).is_none());
    assert_eq!(store.live_nodes(), 4);
    assert_eq!(
        f.connect(a, &mut store).unwrap().collect(&mut store),
        vec![1, 2]
    );
    assert_eq!(store.live_nodes(), 0);
}

#[test]
fn splice_of_two_empty_chains_is_an_empty_chain() {
    let mut store: NodeStore<u8> = NodeStore::new();
    let (a, b) = ChainEnd::new(&mut store, Vec::new());
    let (c, d) = ChainEnd::new(&mut store, Vec::new());
    assert!(a.connect(c, &mut store).is_none());
    assert_eq!(store.live_nodes(), 2);
    let mut contents = b.connect(d, &mut store).unwrap();
    assert_eq!(contents.next(&mut store), None);
    contents.drop(&mut store);
    assert_eq!(store.live_nodes(), 0);
}

#[test]
fn three_chains_in_a_row() {
    let mut store = NodeStore::new();
    let (a, b) = ChainEnd::new(&mut store, vec!['a', 'b']);
    let (c, d) = ChainEnd::new(&mut store, vec!['c']);
    let (e, f) = ChainEnd::new(&mut store, vec!['d', 'e', 'f']);
    assert!(b.connect(c, &mut store).is_none());
    assert!(d.connect(e, &mut store).is_none());
    assert_eq!(
        f.connect(a, &mut store).unwrap().collect(&mut store),
        vec!['a', 'b', 'c', 'd', 'e', 'f']
    );
}

#[test]
fn next_yields_one_by_one_and_then_none_for_good() {
    let mut store = NodeStore::new();
    let (a, b) = ChainEnd::new(&mut store, vec![1, 2, 3]);
    let mut contents = b.connect(a, &mut store).unwrap();
    assert_eq!(contents.next(&mut store), Some(1));
    assert_eq!(contents.next(&mut store), Some(2));
    assert_eq!(contents.next(&mut store), Some(3));
    let live = store.live_nodes();
    assert_eq!(live, 1);
    assert_eq!(contents.next(&mut store), None);
    assert_eq!(contents.next(&mut store), None);
    assert_eq!(contents.next(&mut store), None);
    assert_eq!(store.live_nodes(), live);
    contents.drop(&mut store);
    assert_eq!(store.live_nodes(), 0);
}

#[test]
fn every_step_gives_one_node_back() {
    let mut store = NodeStore::new();
    let (a, b) = ChainEnd::new(&mut store, vec![1, 2, 3, 4]);
    assert_eq!(store.live_nodes(), 6);
    let mut contents = a.connect(b, &mut store).unwrap();
    assert_eq!(store.live_nodes(), 5);
    assert_eq!(contents.next(&mut store), Some(4));
    assert_eq!(store.live_nodes(), 4);
    assert_eq!(contents.next(&mut store), Some(3));
    assert_eq!(store.live_nodes(), 3);
    contents.drop(&mut store);
    assert_eq!(store.live_nodes(), 0);
}

#[test]
fn abandoned_iterator_gives_back_the_rest() {
    let mut store = NodeStore::new();
    let (a, b) = ChainEnd::new(&mut store, vec![1, 2, 3, 4, 5]);
    let (c, d) = ChainEnd::new(&mut store, vec![6]);
    assert_eq!(store.live_nodes(), 10);
    let contents = a.connect(b, &mut store).unwrap();
    // not one step taken
    contents.drop(&mut store);
    assert_eq!(store.live_nodes(), 3);
    // the other chain is untouched
    assert_eq!(
        d.connect(c, &mut store).unwrap().collect(&mut store),
        vec![6]
    );
    assert_eq!(store.live_nodes(), 0);
}

#[test]
fn collect_after_some_steps_returns_the_rest() {
    let mut store = NodeStore::new();
    let (a, b) = ChainEnd::new(&mut store, vec![1, 2, 3, 4, 5]);
    let mut contents = b.connect(a, &mut store).unwrap();
    assert_eq!(contents.next(&mut store), Some(1));
    assert_eq!(contents.next(&mut store), Some(2));
    assert_eq!(contents.collect(&mut store), vec![3, 4, 5]);
    assert_eq!(store.live_nodes(), 0);
}

#[test]
fn two_loops_drained_in_turn() {
    let mut store = NodeStore::new();
    let (a, b) = ChainEnd::new(&mut store, vec![1, 2, 3]);
    let (c, d) = ChainEnd::new(&mut store, vec![10, 20, 30]);
    let mut first = b.connect(a, &mut store).unwrap();
    let mut second = c.connect(d, &mut store).unwrap();
    assert_eq!(first.next(&mut store), Some(1));
    assert_eq!(second.next(&mut store), Some(30));
    // a chain made while both loops are open
    let (e, f) = ChainEnd::new(&mut store, vec![100, 200]);
    assert_eq!(first.next(&mut store), Some(2));
    assert_eq!(second.next(&mut store), Some(20));
    assert_eq!(
        f.connect(e, &mut store).unwrap().collect(&mut store),
        vec![100, 200]
    );
    assert_eq!(first.next(&mut store), Some(3));
    assert_eq!(second.next(&mut store), Some(10));
    assert_eq!(first.next(&mut store), None);
    assert_eq!(second.next(&mut store), None);
    first.drop(&mut store);
    second.drop(&mut store);
    assert_eq!(store.live_nodes(), 0);
}

#[test]
fn slots_are_used_again() {
    let mut store = NodeStore::new();
    for round in 0..50 {
        let (a, b) = ChainEnd::new(&mut store, vec![round, round + 1, round + 2]);
        let (c, d) = ChainEnd::new(&mut store, vec![round + 3]);
        assert_eq!(store.live_nodes(), 8);
        assert!(a.connect(d, &mut store).is_none());
        assert_eq!(store.live_nodes(), 6);
        assert_eq!(
            b.connect(c, &mut store).unwrap().collect(&mut store),
            vec![round + 3, round, round + 1, round + 2]
        );
        assert_eq!(store.live_nodes(), 0);
    }
}

#[test]
fn unconnected_ends_keep_their_chain_in_the_store() {
    let mut store = NodeStore::new();
    {
        let (_a, _b) = ChainEnd::new(&mut store, vec![1, 2, 3]);
    }
    assert_eq!(store.live_nodes(), 5);
    let (c, d) = ChainEnd::new(&mut store, vec![4]);
    assert_eq!(
        d.connect(c, &mut store).unwrap().collect(&mut store),
        vec![4]
    );
    assert_eq!(store.live_nodes(), 5);
}

#[test]
fn owned_values_are_handed_out() {
    let mut store = NodeStore::new();
    let (a, b) = ChainEnd::new(
        &mut store,
        vec![String::from("one"), String::from("two")],
    );
    let (c, d) = ChainEnd::new(&mut store, vec![String::from("three")]);
    assert!(b.connect(c, &mut store).is_none());
    let mut contents = d.connect(a, &mut store).unwrap();
    let first: Option<String> = contents.next(&mut store);
    assert_eq!(first, Some(String::from("one")));
    assert_eq!(
        contents.collect(&mut store),
        vec![String::from("two"), String::from("three")]
    );
}

#[test]
fn long_chain() {
    let mut store = NodeStore::new();
    let values: Vec<u32> = (0..10_000).collect();
    let more: Vec<u32> = (10_000..20_000).collect();
    let (a, b) = ChainEnd::new(&mut store, values);
    let (c, d) = ChainEnd::new(&mut store, more);
    assert_eq!(store.live_nodes(), 20_004);
    assert!(b.connect(c, &mut store).is_none());
    let contents = d.connect(a, &mut store).unwrap().collect(&mut store);
    let expected: Vec<u32> = (0..20_000).collect();
    assert_eq!(contents, expected);
    assert_eq!(store.live_nodes(), 0);
}

#[test]
fn new_store_holds_nothing() {
    let store: NodeStore<u64> = NodeStore::new();
    assert_eq!(store.live_nodes(), 0);
}

struct Plain {
    head: ChainEnd<u32>,
    tail: ChainEnd<u32>,
    // the values as read from `head`
    values: Vec<u32>,
}

fn reversed(values: &[u32]) -> Vec<u32> {
    values.iter().rev().copied().collect()
}

fn footprint(chains: &[Plain]) -> usize {
    chains.iter().map(|c| c.values.len() + 2).sum()
}

#[test]
fn many_steps_agree_with_plain_sequences() {
    let mut store = NodeStore::new();
    let mut chains: Vec<Plain> = Vec::new();
    let mut state: u64 = 0x2545_f491_4f6c_dd1d;
    let mut fresh: u32 = 0;
    let mut closed = 0;
    for _ in 0..4000 {
        state = state
            .wrapping_mul(6364136223846793005)
            .wrapping_add(1442695040888963407);
        let roll = (state >> 33) as usize;
        match roll % 3 {
            0 => {
                let len = (roll / 3) % 5;
                let values: Vec<u32> = (fresh..fresh + len as u32).collect();
                fresh += len as u32;
                let (head, tail) = ChainEnd::new(&mut store, values.clone());
                chains.push(Plain { head, tail, values });
            }
            1 if chains.len() >= 2 => {
                let first = chains.swap_remove((roll / 3) % chains.len());
                let second = chains.swap_remove((roll / 7) % chains.len());
                // the end of `first` that is joined, the end that stays, and
                // the values as read from the end that stays
                let (x, rest_first, towards) = if (roll / 11) % 2 == 0 {
                    (first.tail, first.head, first.values)
                } else {
                    (first.head, first.tail, reversed(&first.values))
                };
                // the same for `second`, with the values as read from the
                // end that is joined
                let (y, rest_second, onwards) = if (roll / 13) % 2 == 0 {
                    (second.head, second.tail, second.values)
                } else {
                    (second.tail, second.head, reversed(&second.values))
                };
                let joined = if (roll / 17) % 2 == 0 {
                    x.connect(y, &mut store)
                } else {
                    y.connect(x, &mut store)
                };
                assert!(joined.is_none());
                let mut values = towards;
                values.extend(onwards);
                chains.push(Plain {
                    head: rest_first,
                    tail: rest_second,
                    values,
                });
            }
            2 if !chains.is_empty() => {
                let chain = chains.swap_remove((roll / 3) % chains.len());
                let (contents, expected) = if (roll / 11) % 2 == 0 {
                    (chain.tail.connect(chain.head, &mut store), chain.values)
                } else {
                    (
                        chain.head.connect(chain.tail, &mut store),
                        reversed(&chain.values),
                    )
                };
                let mut contents = contents.unwrap();
                let taken = (roll / 13) % (expected.len() + 2);
                let mut seen = Vec::new();
                for _ in 0..taken {
                    if let Some(value) = contents.next(&mut store) {
                        seen.push(value);
                    }
                }
                let upto = taken.min(expected.len());
                assert_eq!(seen, expected[..upto].to_vec());
                if (roll / 17) % 2 == 0 {
                    contents.drop(&mut store);
                } else {
                    assert_eq!(contents.collect(&mut store), expected[upto..].to_vec());
                }
                closed += 1;
            }
            _ => {}
        }
        assert_eq!(store.live_nodes(), footprint(&chains));
    }
    assert!(closed > 100);
    while let Some(chain) = chains.pop() {
        assert_eq!(
            chain.tail.connect(chain.head, &mut store).unwrap().collect(&mut store),
            chain.values
        );
    }
    assert_eq!(store.live_nodes(), 0);
}
