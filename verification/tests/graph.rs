use zenith::graph::{
    check_buffer_range, check_declared, check_pass, check_view_range, check_whole_view, plan_pass, plan_passes, Access, BufferId, GraphError, ImageId, PlannedUse,
    ResourceShape, ResourceUse, Segment, Selection, Span, State, SubresourceRange,
};

const COMPUTE_READ: Access = Access { stages: 0x800, access: 0x20 };
const COPY_WRITE: Access = Access { stages: 0x1_0000_0000, access: 0x1000 };
const COPY_READ: Access = Access { stages: 0x1_0000_0000, access: 0x800 };

fn usage(index: usize, start: u64, end: u64, read: bool, write: bool, access: Access) -> PlannedUse {
    PlannedUse {
        usage: ResourceUse {
            graph: 1,
            index,
            read,
            write,
            access,
            selection: Selection::Whole,
        },
        ranges: vec![Span { start, end }],
    }
}

#[test]
fn dependency_planning() {
    let mut states = vec![vec![Segment {
        range: Span { start: 0, end: 64 },
        state: State {
            initialized: false,
            writer: Access::none(),
            readers: Access::none(),
        },
    }]];
    assert!(plan_pass(&mut states, &[usage(0, 0, 16, true, false, COMPUTE_READ)]).is_err());
    plan_pass(&mut states, &[usage(0, 0, 16, false, true, COPY_WRITE)]).unwrap();
    assert!(plan_pass(&mut states, &[usage(0, 16, 32, false, true, COPY_WRITE)])
        .unwrap()
        .is_none());
    assert!(plan_pass(&mut states, &[usage(0, 0, 16, false, true, COPY_WRITE)])
        .unwrap()
        .is_some());
    assert!(plan_pass(&mut states, &[usage(0, 0, 16, true, false, COMPUTE_READ)])
        .unwrap()
        .is_some());
    assert!(plan_pass(&mut states, &[usage(0, 0, 16, true, false, COPY_READ)])
        .unwrap()
        .is_some());
    assert!(plan_pass(&mut states, &[usage(0, 0, 16, true, false, COPY_READ)])
        .unwrap()
        .is_none());
    let (before, _) = plan_pass(&mut states, &[usage(0, 0, 16, false, true, COPY_WRITE)])
        .unwrap()
        .unwrap();
    let wanted = COMPUTE_READ.stages | COPY_READ.stages;
    assert_eq!(before.stages & wanted, wanted);
    assert!(plan_pass(&mut states, &[usage(0, 0, 64, true, false, COPY_READ)]).is_err());
}

fn fresh(end: u64, initialized: bool) -> Vec<Vec<Segment>> {
    vec![vec![Segment {
        range: Span { start: 0, end },
        state: State { initialized, writer: Access::none(), readers: Access::none() },
    }]]
}

#[test]
fn refused_passes_name_the_first_refused_piece() {
    let mut states = fresh(64, false);
    plan_pass(&mut states, &[usage(0, 0, 16, false, true, COPY_WRITE)]).unwrap();
    assert_eq!(
        plan_pass(&mut states, &[usage(0, 0, 64, true, false, COPY_READ)]),
        Err(GraphError::ReadBeforeInitialization { resource: 0, start: 16, end: 64 })
    );
    let mut states = fresh(64, true);
    assert_eq!(
        plan_pass(&mut states, &[usage(0, 8, 80, true, false, COPY_READ)]),
        Err(GraphError::InvalidPlannerRange { resource: 0, start: 64, end: 80 })
    );
}

#[test]
fn uses_are_checked_against_their_graph_and_resources() {
    let shapes = vec![
        ResourceShape::Buffer { size: 256 },
        ResourceShape::Image { aspect: 1, mip_levels: 4, layers: 2 },
    ];
    let buffer = BufferId { graph: 7, index: 0 };
    let image = ImageId { graph: 7, index: 1 };
    assert!(check_pass(7, &shapes, &vec![buffer.read(COMPUTE_READ).bytes(0, 256)]).is_ok());
    assert_eq!(
        check_pass(7, &shapes, &vec![buffer.read(COMPUTE_READ).bytes(0, 257)]),
        Err(GraphError::BufferRangeOutOfBounds)
    );
    assert_eq!(
        check_pass(8, &shapes, &vec![buffer.read(COMPUTE_READ)]),
        Err(GraphError::ForeignResource)
    );
    assert_eq!(
        check_pass(7, &shapes, &vec![buffer.read(Access::none())]),
        Err(GraphError::MissingStage)
    );
    let range = SubresourceRange {
        aspect_mask: 1,
        base_mip_level: 1,
        level_count: 2,
        base_array_layer: 0,
        layer_count: 2,
    };
    assert!(check_pass(7, &shapes, &vec![image.write(COPY_WRITE).subresources(range)]).is_ok());
    assert_eq!(
        check_pass(7, &shapes, &vec![image.write(COPY_WRITE).bytes(0, 1)]),
        Err(GraphError::WrongResourceType)
    );
    assert_eq!(ResourceShape::Image { aspect: 1, mip_levels: 4, layers: 2 }.size(), 8);
}

#[test]
fn passes_are_planned_in_order_with_their_barriers() {
    let shapes = vec![ResourceShape::Buffer { size: 64 }];
    let buffer = BufferId { graph: 1, index: 0 };
    let passes = vec![
        vec![buffer.write(COPY_WRITE)],
        vec![buffer.read(COMPUTE_READ)],
        vec![buffer.read(COMPUTE_READ)],
    ];
    let barriers = plan_passes(&shapes, &vec![false], &passes).unwrap();
    assert_eq!(barriers.len(), 3);
    assert!(barriers[1].is_some());
    assert!(barriers[2].is_none());
    let unwritten = vec![vec![buffer.read(COMPUTE_READ)]];
    assert!(plan_passes(&shapes, &vec![false], &unwritten).is_err());
    assert!(plan_passes(&shapes, &vec![true], &unwritten).is_ok());
}

fn mips(base: u32, count: u32) -> SubresourceRange {
    SubresourceRange {
        aspect_mask: 1,
        base_mip_level: base,
        level_count: count,
        base_array_layer: 0,
        layer_count: 2,
    }
}

#[test]
fn passes_touch_only_what_they_declared() {
    let shapes = vec![
        ResourceShape::Buffer { size: 256 },
        ResourceShape::Image { aspect: 1, mip_levels: 4, layers: 2 },
    ];
    let buffer = BufferId { graph: 7, index: 0 };
    let image = ImageId { graph: 7, index: 1 };
    let uses = vec![
        buffer.read(COMPUTE_READ).bytes(16, 64),
        image.read(COMPUTE_READ).subresources(mips(1, 1)),
    ];
    assert!(check_declared(7, &uses, 7, 0).is_ok());
    assert_eq!(check_declared(7, &uses, 8, 0), Err(GraphError::NotDeclared));
    assert_eq!(check_declared(7, &uses[..1].to_vec(), 7, 1), Err(GraphError::NotDeclared));

    assert!(check_buffer_range(7, &shapes, &uses, buffer, 16, 64).is_ok());
    assert!(check_buffer_range(7, &shapes, &uses, buffer, 20, 30).is_ok());
    assert_eq!(
        check_buffer_range(7, &shapes, &uses, buffer, 0, 32),
        Err(GraphError::RangeNotDeclared)
    );
    assert_eq!(
        check_buffer_range(7, &shapes, &uses, BufferId { graph: 8, index: 0 }, 16, 64),
        Err(GraphError::NotDeclared)
    );

    assert!(check_view_range(7, &shapes, &uses, image, mips(1, 1)).is_ok());
    assert_eq!(
        check_view_range(7, &shapes, &uses, image, mips(2, 1)),
        Err(GraphError::RangeNotDeclared)
    );
    assert_eq!(
        check_whole_view(7, &shapes, &uses, image),
        Err(GraphError::RangeNotDeclared)
    );
    let whole = vec![image.read(COMPUTE_READ)];
    assert!(check_whole_view(7, &shapes, &whole, image).is_ok());
    assert!(check_view_range(7, &shapes, &whole, image, mips(2, 2)).is_ok());
    let as_buffer = vec![buffer.read(COMPUTE_READ)];
    assert_eq!(
        check_whole_view(7, &shapes, &as_buffer, ImageId { graph: 7, index: 0 }),
        Err(GraphError::WrongResourceType)
    );
}
