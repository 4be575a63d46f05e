use graphics::render_graph::dag::DirectedAcyclicGraph;
use graphics::render_graph::gpu_operation::Operation;
use graphics::render_graph::render_graph::{IntermediateAction, RenderGraph};
use graphics::render_graph::resource::ResourceId;
use graphics::rendering::texture_container::{TextureContainer, TextureViewId};

fn views(n: usize) -> Vec<TextureViewId> {
    let mut texture_container = TextureContainer::new();
    (0..n).map(|_| texture_container.create_texture_view_null()).collect()
}

#[test]
pub fn test_basic() {
    let mut rendergraph = RenderGraph::new();
    let mut texture_container = TextureContainer::new();
    let present = texture_container.create_texture_view_null();
    let source = texture_container.create_texture_view_null();
    let intermid = texture_container.create_texture_view_null();

    let present_op = Operation::Present(ResourceId::Texture(present));
    let draw_op = Operation::DrawCall(ResourceId::Texture(intermid), ResourceId::Texture(present));
    let draw_op1 = Operation::DrawCall(ResourceId::Texture(source), ResourceId::Texture(intermid));
    rendergraph.add_target_op(present_op);
    rendergraph.add_operation(draw_op);
    rendergraph.add_operation(draw_op1);
    assert_eq!(Some(vec![draw_op1, draw_op, present_op]), rendergraph.compile());
    println!("{:?}", rendergraph.compile());
}

#[test]
pub fn test_parallel() {
    let mut rendergraph = RenderGraph::new();
    let mut texture_container = TextureContainer::new();
    let present = texture_container.create_texture_view_null();
    let source = texture_container.create_texture_view_null();
    let source_2_inter = texture_container.create_texture_view_null();
    let source_2 = texture_container.create_texture_view_null();
    println!(
        "present:{:?} source:{:?} source_2_inter:{:?} source_2:{:?}",
        present, source, source_2_inter, source_2
    );
    let present_op = Operation::Present(ResourceId::Texture(present));
    let draw_op = Operation::DrawCall(ResourceId::Texture(source), ResourceId::Texture(present));
    let draw_op1 =
        Operation::DrawCall(ResourceId::Texture(source_2_inter), ResourceId::Texture(present));
    let dep_op1 =
        Operation::DrawCall(ResourceId::Texture(source_2), ResourceId::Texture(source_2_inter));
    rendergraph.add_target_op(present_op);
    rendergraph.add_operation(draw_op);
    rendergraph.add_operation(draw_op1);
    rendergraph.add_operation(dep_op1);
    assert_eq!(Some(vec![draw_op, dep_op1, draw_op1, present_op]), rendergraph.compile());
}

#[test]
fn compile_culls_operations_that_do_not_reach_the_target() {
    let v = views(5);
    let t = |i: usize| ResourceId::Texture(v[i]);
    let mut rg = RenderGraph::new();
    let present = Operation::Present(t(0));
    let feeding = Operation::DrawCall(t(1), t(0));
    let unrelated = Operation::DrawCall(t(2), t(3));
    let reads_output = Operation::CopyCall(t(0), t(4));
    rg.add_target_op(present);
    rg.add_operation(unrelated);
    rg.add_operation(feeding);
    rg.add_operation(reads_output);
    assert_eq!(rg.compile(), Some(vec![feeding, present]));
}

#[test]
fn compile_twice_gives_the_same_result() {
    let v = views(3);
    let t = |i: usize| ResourceId::Texture(v[i]);
    let mut rg = RenderGraph::new();
    rg.add_target_op(Operation::Present(t(0)));
    rg.add_operation(Operation::DrawCall(t(1), t(0)));
    rg.add_operation(Operation::CopyCall(t(2), t(1)));
    let first = rg.compile();
    let second = rg.compile();
    assert_eq!(first, second);
    assert_eq!(first.as_ref().map(|ops| ops.len()), Some(3));
}

#[test]
fn compile_of_a_lone_target_is_the_target() {
    let v = views(1);
    let mut rg = RenderGraph::new();
    let present = Operation::Present(ResourceId::Texture(v[0]));
    rg.add_target_op(present);
    assert_eq!(rg.compile(), Some(vec![present]));
}

#[test]
fn compile_fails_on_a_dependency_cycle() {
    let v = views(3);
    let t = |i: usize| ResourceId::Texture(v[i]);
    let mut rg = RenderGraph::new();
    rg.add_target_op(Operation::Present(t(1)));
    rg.add_operation(Operation::DrawCall(t(0), t(1)));
    rg.add_operation(Operation::DrawCall(t(1), t(0)));
    assert_eq!(rg.compile(), None);
}

#[test]
fn compile_fails_when_the_target_reads_what_it_writes() {
    let v = views(1);
    let t = ResourceId::Texture(v[0]);
    let mut rg = RenderGraph::new();
    rg.add_target_op(Operation::CopyCall(t, t));
    assert_eq!(rg.compile(), None);
}

#[test]
fn compile_puts_the_target_last_and_breaks_ties_by_insertion_order() {
    let v = views(4);
    let t = |i: usize| ResourceId::Texture(v[i]);
    let mut rg = RenderGraph::new();
    let a = Operation::DrawCall(t(3), t(1));
    let b = Operation::DrawCall(t(3), t(2));
    let target = Operation::DrawCall(t(1), t(0));
    let second_reader = Operation::CopyCall(t(2), t(1));
    rg.add_operation(a);
    rg.add_operation(b);
    rg.add_target_op(target);
    rg.add_operation(second_reader);
    // both `a` and `b` are ready first; `a` was added first
    assert_eq!(rg.compile(), Some(vec![a, b, second_reader, target]));
}

#[test]
fn first_operation_is_the_target_when_none_was_marked() {
    let v = views(2);
    let t = |i: usize| ResourceId::Texture(v[i]);
    let mut rg = RenderGraph::new();
    let first = Operation::Present(t(0));
    let writer = Operation::DrawCall(t(1), t(0));
    rg.add_operation(first);
    rg.add_operation(writer);
    assert_eq!(rg.compile(), Some(vec![writer, first]));
}

#[test]
fn clear_forgets_every_operation() {
    let v = views(2);
    let t = |i: usize| ResourceId::Texture(v[i]);
    let mut rg = RenderGraph::new();
    rg.add_target_op(Operation::Present(t(0)));
    rg.add_operation(Operation::DrawCall(t(1), t(0)));
    rg.clear();
    assert_eq!(rg.dag().node_count(), 0);
    let present = Operation::Present(t(1));
    rg.add_target_op(present);
    assert_eq!(rg.compile(), Some(vec![present]));
}

#[test]
fn read_and_write_resources() {
    let v = views(2);
    let (a, b) = (ResourceId::Texture(v[0]), ResourceId::Texture(v[1]));
    assert_eq!(Operation::DrawCall(a, b).read_resources(), vec![a]);
    assert_eq!(Operation::DrawCall(a, b).write_resources(), vec![b]);
    assert_eq!(Operation::CopyCall(b, a).read_resources(), vec![b]);
    assert_eq!(Operation::CopyCall(b, a).write_resources(), vec![a]);
    assert_eq!(Operation::Present(a).read_resources(), vec![a]);
    assert_eq!(Operation::Present(a).write_resources(), Vec::<ResourceId>::new());
}

#[test]
fn dag_schedules_smallest_ready_node_first() {
    let mut dag: DirectedAcyclicGraph<u32, IntermediateAction> = DirectedAcyclicGraph::new();
    for n in 0..5u32 {
        dag.add_node(n * 10);
    }
    assert_eq!(dag.node_count(), 5);
    dag.add_edge_cyclic(3, 0, IntermediateAction::NoAction);
    dag.add_edge_cyclic(1, 0, IntermediateAction::NoAction);
    dag.add_edge_cyclic(4, 3, IntermediateAction::NoAction);
    dag.add_edge_cyclic(4, 3, IntermediateAction::NoAction);
    // node 2 does not reach node 0
    dag.add_edge_cyclic(0, 2, IntermediateAction::NoAction);
    assert_eq!(dag.compile(&vec![0]), Some(vec![1, 4, 3, 0]));
    assert_eq!(dag.compile(&vec![2]), Some(vec![1, 4, 3, 0, 2]));
    assert_eq!(dag.compile(&vec![4]), Some(vec![4]));
    assert_eq!(dag.get_node(3), Some(&30));
    assert_eq!(dag.get_node(5), None);
    assert_eq!(dag.nodes(), &vec![0, 10, 20, 30, 40]);
}

#[test]
fn dag_compile_fails_on_a_cycle_that_reaches_the_target() {
    let mut dag: DirectedAcyclicGraph<u32, IntermediateAction> = DirectedAcyclicGraph::new();
    for n in 0..4u32 {
        dag.add_node(n);
    }
    dag.add_edge_cyclic(1, 0, IntermediateAction::NoAction);
    dag.add_edge_cyclic(2, 1, IntermediateAction::NoAction);
    dag.add_edge_cyclic(1, 2, IntermediateAction::NoAction);
    assert_eq!(dag.compile(&vec![0]), None);
    // a cycle elsewhere does not matter
    dag.add_edge_cyclic(3, 3, IntermediateAction::NoAction);
    assert_eq!(dag.compile(&vec![3]), None);
    let mut other: DirectedAcyclicGraph<u32, IntermediateAction> = DirectedAcyclicGraph::new();
    other.add_node(7);
    other.add_node(8);
    other.add_edge_cyclic(1, 1, IntermediateAction::NoAction);
    assert_eq!(other.compile(&vec![0]), Some(vec![0]));
    other.clear();
    assert_eq!(other.node_count(), 0);
}

#[test]
fn compile_keeps_every_target() {
    let v = views(4);
    let t = |i: usize| ResourceId::Texture(v[i]);
    let mut rg = RenderGraph::new();
    let first_target = Operation::Present(t(0));
    let second_target = Operation::Present(t(1));
    let feeds_second = Operation::DrawCall(t(2), t(1));
    let unrelated = Operation::DrawCall(t(2), t(3));
    rg.add_target_op(first_target);
    rg.add_target_op(second_target);
    rg.add_operation(feeds_second);
    rg.add_operation(unrelated);
    assert_eq!(rg.compile(), Some(vec![first_target, feeds_second, second_target]));
}

#[test]
fn dag_compiles_towards_several_roots() {
    let mut dag: DirectedAcyclicGraph<u32, IntermediateAction> = DirectedAcyclicGraph::new();
    for n in 0..4u32 {
        dag.add_node(n);
    }
    dag.add_edge_cyclic(2, 0, IntermediateAction::NoAction);
    dag.add_edge_cyclic(3, 1, IntermediateAction::NoAction);
    assert_eq!(dag.compile(&vec![0, 1]), Some(vec![2, 0, 3, 1]));
    assert_eq!(dag.compile(&vec![1, 1]), Some(vec![3, 1]));
    assert_eq!(dag.compile(&vec![]), Some(vec![]));
}

#[test]
fn clear_keeps_the_targets() {
    let v = views(3);
    let t = |i: usize| ResourceId::Texture(v[i]);
    let mut rg = RenderGraph::new();
    rg.add_operation(Operation::Present(t(2)));
    rg.add_target_op(Operation::Present(t(0)));
    rg.clear();
    let writer = Operation::DrawCall(t(0), t(1));
    let reader = Operation::Present(t(1));
    rg.add_operation(writer);
    rg.add_operation(reader);
    // the target index 1 from before the clear now names `reader`
    assert_eq!(rg.compile(), Some(vec![writer, reader]));
}
