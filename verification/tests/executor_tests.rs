use boot_repair::executor::accumulate_from_instructions;
use boot_repair::looppath::get_possibly_broken_instructions;
use boot_repair::ops::{jump_index, nop_index, OP};

#[test]
fn jump_index_applies_offset() {
    assert_eq!(jump_index(5, 3), 8);
    assert_eq!(jump_index(5, -3), 2);
    assert_eq!(jump_index(7, 0), 7);
}

#[test]
fn jump_index_clamps_negative_target_to_zero() {
    assert_eq!(jump_index(1, -9), 0);
    assert_eq!(jump_index(0, -1), 0);
    assert_eq!(jump_index(3, -3), 0);
}

#[test]
fn nop_index_advances_by_one() {
    assert_eq!(nop_index(0), 1);
    assert_eq!(nop_index(41), 42);
}

#[test]
fn straight_line_program_terminates() {
    let program = vec![OP::Acc(1), OP::Acc(2), OP::Nop(7), OP::Acc(3)];
    let (acc, looped_at, graph) = accumulate_from_instructions(&program, None);
    assert_eq!(acc, 6);
    assert_eq!(looped_at, None);
    assert_eq!(graph.len(), 4);
    assert_eq!(*graph.get(&0).unwrap(), 1);
    assert_eq!(*graph.get(&1).unwrap(), 2);
    assert_eq!(*graph.get(&2).unwrap(), 3);
    assert_eq!(*graph.get(&3).unwrap(), 4);
}

#[test]
fn empty_program_terminates_at_once() {
    let program: Vec<OP> = Vec::new();
    let (acc, looped_at, graph) = accumulate_from_instructions(&program, None);
    assert_eq!(acc, 0);
    assert_eq!(looped_at, None);
    assert!(graph.is_empty());
}

#[test]
fn loop_is_detected_at_first_revisit() {
    // nop +0 / acc +1 / jmp +4 / acc +3 / jmp -3 / acc -99 / acc +1 /
    // jmp -4 / acc +6
    let program = vec![
        OP::Nop(0),
        OP::Acc(1),
        OP::Jmp(4),
        OP::Acc(3),
        OP::Jmp(-3),
        OP::Acc(-99),
        OP::Acc(1),
        OP::Jmp(-4),
        OP::Acc(6),
    ];
    let (acc, looped_at, graph) = accumulate_from_instructions(&program, None);
    assert_eq!(acc, 5);
    assert_eq!(looped_at, Some(1));
    // Exactly the seven executed positions are recorded, each once.
    assert_eq!(graph.len(), 7);
    assert_eq!(*graph.get(&0).unwrap(), 1);
    assert_eq!(*graph.get(&1).unwrap(), 2);
    assert_eq!(*graph.get(&2).unwrap(), 6);
    assert_eq!(*graph.get(&3).unwrap(), 4);
    assert_eq!(*graph.get(&4).unwrap(), 1);
    assert_eq!(*graph.get(&6).unwrap(), 7);
    assert_eq!(*graph.get(&7).unwrap(), 3);
    assert!(graph.get(&5).is_none());
    assert!(graph.get(&8).is_none());
}

#[test]
fn negative_jump_at_zero_clamps_and_self_loops() {
    // A jmp at position 0 whose target computes negative clamps to 0 and is
    // caught on the second visit to 0, with nothing accumulated.
    let program = vec![OP::Jmp(-5), OP::Acc(1)];
    let (acc, looped_at, graph) = accumulate_from_instructions(&program, None);
    assert_eq!(acc, 0);
    assert_eq!(looped_at, Some(0));
    assert_eq!(graph.len(), 1);
    assert_eq!(*graph.get(&0).unwrap(), 0);
}

#[test]
fn swapping_a_jmp_makes_it_step_forward() {
    let program = vec![OP::Jmp(2), OP::Acc(3), OP::Acc(10)];
    let (acc, looped_at, graph) = accumulate_from_instructions(&program, None);
    assert_eq!((acc, looped_at), (10, None));
    assert_eq!(*graph.get(&0).unwrap(), 2);
    let (acc_swapped, looped_swapped, graph_swapped) =
        accumulate_from_instructions(&program, Some(0));
    assert_eq!((acc_swapped, looped_swapped), (13, None));
    assert_eq!(*graph_swapped.get(&0).unwrap(), 1);
}

#[test]
fn swapping_a_nop_makes_it_jump() {
    let program = vec![OP::Nop(2), OP::Acc(3), OP::Acc(10)];
    let (acc, looped_at, graph) = accumulate_from_instructions(&program, None);
    assert_eq!((acc, looped_at), (13, None));
    assert_eq!(*graph.get(&0).unwrap(), 1);
    let (acc_swapped, looped_swapped, graph_swapped) =
        accumulate_from_instructions(&program, Some(0));
    assert_eq!((acc_swapped, looped_swapped), (10, None));
    assert_eq!(*graph_swapped.get(&0).unwrap(), 2);
}

#[test]
fn swap_leaves_acc_instructions_alone() {
    let program = vec![OP::Acc(4), OP::Acc(5)];
    let (acc, looped_at, _) = accumulate_from_instructions(&program, Some(0));
    assert_eq!((acc, looped_at), (9, None));
}

#[test]
fn loop_path_starts_at_detection_point_and_closes() {
    let program = vec![
        OP::Nop(0),
        OP::Acc(1),
        OP::Jmp(4),
        OP::Acc(3),
        OP::Jmp(-3),
        OP::Acc(-99),
        OP::Acc(1),
        OP::Jmp(-4),
        OP::Acc(6),
    ];
    let (_, looped_at, graph) = accumulate_from_instructions(&program, None);
    let start = looped_at.unwrap();
    let path = get_possibly_broken_instructions(&graph, start);
    assert_eq!(path, vec![1, 2, 6, 7, 3, 4]);
    // Starts at the detection point, returns to it after the last element,
    // and never repeats a position.
    assert_eq!(path[0], start);
    assert_eq!(*graph.get(path.last().unwrap()).unwrap(), start);
    for i in 0..path.len() {
        for j in 0..path.len() {
            if i != j {
                assert_ne!(path[i], path[j]);
            }
        }
    }
}

#[test]
fn loop_path_of_a_self_loop_is_one_position() {
    let program = vec![OP::Jmp(0)];
    let (_, looped_at, graph) = accumulate_from_instructions(&program, None);
    assert_eq!(looped_at, Some(0));
    let path = get_possibly_broken_instructions(&graph, 0);
    assert_eq!(path, vec![0]);
}

#[test]
fn accumulator_handles_extreme_deltas() {
    let program = vec![OP::Acc(i64::MAX), OP::Acc(i64::MAX), OP::Acc(1)];
    let (acc, looped_at, _) = accumulate_from_instructions(&program, None);
    assert_eq!(looped_at, None);
    assert_eq!(acc, i64::MAX as i128 + i64::MAX as i128 + 1);
}
