use bumpalo::Bump;
use scope_arena::any_props::AnyProps;
use scope_arena::bump_frame::plan_cycle;
use scope_arena::bump_frame::ArenaError;
use scope_arena::bump_frame::BumpFrame;
use scope_arena::bump_frame::CyclePlan;
use scope_arena::hooks::HookList;
use scope_arena::nodes::RenderReturn;
use scope_arena::scopes::ScopeId;
use scope_arena::scopes::ScopeState;

#[test]
fn an_unused_frame_is_sized_after_the_other() {
    assert_eq!(plan_cycle(0, 0), CyclePlan::Allocate(0));
    assert_eq!(plan_cycle(0, 4096), CyclePlan::Allocate(4096));
}

#[test]
fn a_used_frame_is_rewound() {
    assert_eq!(plan_cycle(1, 0), CyclePlan::Reset);
    assert_eq!(plan_cycle(512, 4096), CyclePlan::Reset);
    assert_eq!(plan_cycle(usize::MAX, usize::MAX), CyclePlan::Reset);
}

#[test]
fn a_new_frame_holds_no_root() {
    let frame: BumpFrame<u32> = BumpFrame::new(0).unwrap();
    assert!(frame.root().is_none());
    assert_eq!(frame.allocated_bytes(), 0);
}

#[test]
fn a_frame_that_cannot_get_its_memory_is_not_made() {
    let made: Result<BumpFrame<u32>, ArenaError> = BumpFrame::new(usize::MAX);
    assert!(matches!(made, Err(ArenaError::OutOfMemory)));
}

#[test]
fn a_capacity_is_honoured() {
    let frame: BumpFrame<u32> = BumpFrame::new(1024).unwrap();
    assert!(frame.allocated_bytes() >= 1024);
}

#[test]
fn a_sentinel_is_gone_after_the_next_cycle() {
    let mut frame: BumpFrame<u32> = BumpFrame::new(0).unwrap();
    assert_eq!(frame.cycle(0), Ok(CyclePlan::Allocate(0)));
    frame.publish(RenderReturn::Ready(0xfeed));
    assert_eq!(frame.root().unwrap().nodes(), Some(&0xfeed));
    assert!(frame.cycle(0).is_ok());
    assert!(frame.root().is_none());
}

#[test]
fn cycle_allocates_first_and_rewinds_later() {
    let mut frame: BumpFrame<u32> = BumpFrame::new(0).unwrap();
    assert_eq!(frame.cycle(256), Ok(CyclePlan::Allocate(256)));
    assert!(frame.allocated_bytes() >= 256);
    frame.bump_mut().alloc(7u64);
    assert_eq!(frame.cycle(999), Ok(CyclePlan::Reset));
    assert!(frame.allocated_bytes() >= 256);
    assert_eq!(frame.cycle(999), Ok(CyclePlan::Reset));
}

#[test]
fn cycle_that_fails_leaves_the_frame() {
    let mut frame: BumpFrame<u32> = BumpFrame::new(0).unwrap();
    frame.publish(RenderReturn::Ready(5));
    assert_eq!(frame.cycle(usize::MAX), Err(ArenaError::OutOfMemory));
    assert_eq!(frame.root().unwrap().nodes(), Some(&5));
}

#[test]
fn a_rewound_arena_reuses_its_memory() {
    let mut frame: BumpFrame<u32> = BumpFrame::new(64).unwrap();
    let first = format!("{:p}", frame.bump_mut().alloc(1u64));
    assert_eq!(frame.cycle(0), Ok(CyclePlan::Reset));
    let second = format!("{:p}", frame.bump_mut().alloc(2u64));
    assert_eq!(first, second);
}

#[test]
fn render_return_kinds() {
    let ready: RenderReturn<u8> = RenderReturn::Ready(3);
    assert!(ready.is_ready() && !ready.is_pending() && !ready.is_aborted());
    assert_eq!(ready.nodes(), Some(&3));
    let empty: RenderReturn<u8> = RenderReturn::default();
    assert!(empty.is_aborted() && !empty.is_ready() && !empty.is_pending());
    assert_eq!(empty.nodes(), None);
    assert!(RenderReturn::from_nodes(Some(9u8)).is_ready());
    assert!(RenderReturn::<u8>::from_nodes(None).is_aborted());
}

#[test]
fn hooks_are_declared_in_order() {
    let mut hooks: HookList<&str> = HookList::new();
    assert_eq!((hooks.len(), hooks.cursor()), (0, 0));
    assert_eq!(hooks.use_hook("first"), 0);
    assert_eq!(hooks.use_hook("second"), 1);
    assert_eq!((hooks.len(), hooks.cursor()), (2, 2));
    assert_eq!(hooks.get(0), Some(&"first"));
    assert_eq!(hooks.get(1), Some(&"second"));
    assert_eq!(hooks.get(2), None);
}

#[test]
fn hooks_are_found_again_after_a_reset() {
    let mut hooks: HookList<u32> = HookList::new();
    hooks.use_hook(10);
    hooks.use_hook(20);
    hooks.reset();
    assert_eq!(hooks.cursor(), 0);
    assert_eq!(hooks.len(), 2);
    assert_eq!(hooks.use_hook(99), 0);
    assert_eq!(hooks.get(0), Some(&10));
    assert_eq!(hooks.use_hook(99), 1);
    assert_eq!(hooks.use_hook(30), 2);
    assert_eq!(hooks.get(2), Some(&30));
    assert_eq!(hooks.len(), 3);
}

#[test]
fn hook_set_writes_an_existing_slot_only() {
    let mut hooks: HookList<u32> = HookList::new();
    hooks.use_hook(1);
    assert!(hooks.set(0, 5));
    assert!(!hooks.set(1, 6));
    assert_eq!(hooks.get(0), Some(&5));
    assert_eq!(hooks.len(), 1);
    assert_eq!(hooks.cursor(), 1);
}

struct Counter;

impl AnyProps for Counter {
    type Nodes = usize;
    type Hook = usize;
    type Context = ();

    fn render(&self, hooks: &mut HookList<usize>, arena: &mut Bump) -> RenderReturn<usize> {
        let slot = hooks.use_hook(0);
        let count = *hooks.get(slot).unwrap() + 1;
        hooks.set(slot, count);
        arena.alloc(count);
        RenderReturn::Ready(count)
    }
}

#[test]
fn a_scope_cycles_renders_and_publishes() {
    let mut scope = ScopeState::new(ScopeId(3), Some(ScopeId(1)), 4, "counter", Counter);
    assert_eq!((scope.id(), scope.parent(), scope.height()), (ScopeId(3), Some(ScopeId(1)), 4));
    assert_eq!(scope.name(), "counter");
    assert_eq!(scope.generation(), 0);
    assert!(scope.root_node().is_none());

    for round in 1..=4usize {
        let plan = scope.cycle().unwrap();
        assert_eq!(plan == CyclePlan::Reset, round > 2);
        assert!(scope.previous_frame().root().is_none());
        assert_eq!(scope.hooks().cursor(), 0);
        let output = scope.render();
        assert_eq!(output.nodes(), Some(&round));
        assert_eq!(scope.hooks().cursor(), 1);
        scope.publish(output);
        assert_eq!(scope.generation(), round);
        assert_eq!(scope.root_node().unwrap().nodes(), Some(&round));
        if round > 1 {
            assert_eq!(scope.previous_frame().root().unwrap().nodes(), Some(&(round - 1)));
        }
    }
    assert_eq!(scope.hooks().get(0), Some(&4));
}

#[test]
fn a_scope_that_is_torn_down_has_no_properties() {
    let mut scope = ScopeState::new(ScopeId(0), None, 0, "counter", Counter);
    assert!(scope.has_props());
    assert!(scope.teardown().is_some());
    assert!(!scope.has_props());
    assert!(scope.teardown().is_none());
}

#[test]
fn the_safety_pass_drops_listeners_and_lent_properties() {
    let mut scope = ScopeState::new(ScopeId(0), None, 0, "counter", Counter);
    scope.add_listener(5);
    scope.lend_props(ScopeId(2));
    scope.provide_context(9, ());
    assert_eq!(scope.listeners().len(), 1);
    assert_eq!(scope.borrowed_props().len(), 1);
    scope.ensure_drop_safety();
    assert!(scope.listeners().is_empty());
    assert!(scope.borrowed_props().is_empty());
    assert_eq!(scope.context(9), Some(&()));
    assert_eq!(scope.context(8), None);
}
