use place_algebra::cfg::{BasicBlockData, Body, Terminator, predecessors_for};

fn block(successors: Vec<usize>) -> BasicBlockData {
    BasicBlockData { terminator: Some(Terminator { successors }) }
}

fn open_block() -> BasicBlockData {
    BasicBlockData { terminator: None }
}

#[test]
fn predecessors_in_index_order() {
    let body = Body {
        basic_blocks: vec![block(vec![1, 2]), block(vec![2]), open_block()],
    };
    assert_eq!(predecessors_for(&body, 2), vec![0, 1]);
    assert_eq!(predecessors_for(&body, 1), vec![0]);
    assert_eq!(predecessors_for(&body, 0), Vec::<usize>::new());
}

#[test]
fn block_without_terminator_is_no_predecessor() {
    let body = Body {
        basic_blocks: vec![open_block(), block(vec![0])],
    };
    assert_eq!(predecessors_for(&body, 0), vec![1]);
}
