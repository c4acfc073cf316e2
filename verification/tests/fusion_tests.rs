use point_cloud::fuse::{build_fused_mesh, combine_meshes, MeshBuffer, Translation};
use point_cloud::model::{FusionError, MeshAttribute, PointRecord};

fn bits3(a: f32, b: f32, c: f32) -> (u32, u32, u32) {
    (a.to_bits(), b.to_bits(), c.to_bits())
}

fn triangle_template() -> MeshBuffer {
    MeshBuffer {
        positions: vec![bits3(0.0, 0.0, 0.0), bits3(1.0, 0.0, 0.0), bits3(0.0, 1.0, 0.0)],
        normals: Some(vec![bits3(0.0, 0.0, 1.0); 3]),
        tangents: None,
        uvs: Some(vec![
            (0.0f32.to_bits(), 0.0f32.to_bits()),
            (1.0f32.to_bits(), 0.0f32.to_bits()),
            (0.0f32.to_bits(), 1.0f32.to_bits()),
        ]),
        colors: None,
        indices: vec![0, 1, 2],
    }
}

fn point(x: f32, y: f32, z: f32, r: u8, g: u8, b: u8) -> PointRecord {
    PointRecord {
        x: x.to_bits(),
        y: y.to_bits(),
        z: z.to_bits(),
        nx: 0.0f32.to_bits(),
        ny: 0.0f32.to_bits(),
        nz: 1.0f32.to_bits(),
        red: r,
        green: g,
        blue: b,
    }
}

#[test]
fn offsets_of_identical_triangles() {
    let tpl = triangle_template();
    let points = vec![
        point(10.0, 0.0, 0.0, 255, 0, 0),
        point(0.0, 20.0, 0.0, 0, 255, 0),
        point(0.0, 0.0, 30.0, 0, 0, 255),
    ];
    let out = build_fused_mesh(&points, &tpl, true, false, true, true, None).unwrap();
    assert_eq!(out.indices, vec![0, 1, 2, 3, 4, 5, 6, 7, 8]);
    assert_eq!(out.positions.len(), 9);
    // instance 0 translated by (10, 0, 0)
    assert_eq!(out.positions[0], bits3(0.0 + 10.0, 0.0, 0.0));
    assert_eq!(out.positions[1], bits3(1.0 + 10.0, 0.0, 0.0));
    assert_eq!(out.positions[2], bits3(0.0 + 10.0, 1.0, 0.0));
    // instance 1 translated by (0, 20, 0)
    assert_eq!(out.positions[3], bits3(0.0, 0.0 + 20.0, 0.0));
    assert_eq!(out.positions[4], bits3(1.0, 0.0 + 20.0, 0.0));
    assert_eq!(out.positions[5], bits3(0.0, 1.0 + 20.0, 0.0));
    // instance 2 translated by (0, 0, 30)
    assert_eq!(out.positions[8], bits3(0.0, 1.0, 0.0 + 30.0));
}

#[test]
fn index_bound_invariant() {
    let tpl = triangle_template();
    let points = vec![point(1.0, 2.0, 3.0, 1, 2, 3), point(4.0, 5.0, 6.0, 4, 5, 6)];
    let out = build_fused_mesh(&points, &tpl, true, false, true, true, None).unwrap();
    assert_eq!(out.indices.len() % 3, 0);
    let max = out.indices.iter().copied().max().unwrap();
    assert!((max as usize) < out.positions.len());
}

#[test]
fn color_propagation() {
    let tpl = triangle_template();
    let points = vec![point(0.0, 0.0, 0.0, 255, 0, 0), point(1.0, 1.0, 1.0, 10, 128, 200)];
    let out = build_fused_mesh(&points, &tpl, false, false, false, true, None).unwrap();
    let colors = out.colors.unwrap();
    assert_eq!(colors.len(), 6);
    let expect0 = (
        (255f32 / 255f32).to_bits(),
        (0f32 / 255f32).to_bits(),
        (0f32 / 255f32).to_bits(),
        1.0f32.to_bits(),
    );
    for j in 0..3 {
        assert_eq!(colors[j], expect0);
    }
    let expect1 = (
        (10f32 / 255f32).to_bits(),
        (128f32 / 255f32).to_bits(),
        (200f32 / 255f32).to_bits(),
        1.0f32.to_bits(),
    );
    for j in 3..6 {
        assert_eq!(colors[j], expect1);
    }
}

#[test]
fn translation_keeps_normals() {
    let tpl = triangle_template();
    let points = vec![point(5.0, -3.0, 2.0, 9, 9, 9)];
    let out = build_fused_mesh(&points, &tpl, true, false, false, false, None).unwrap();
    let normals = out.normals.unwrap();
    assert_eq!(normals, vec![bits3(0.0, 0.0, 1.0); 3]);
}

#[test]
fn empty_input_yields_empty_buffer() {
    let tpl = triangle_template();
    let points: Vec<PointRecord> = vec![];
    let out = build_fused_mesh(&points, &tpl, true, false, true, true, None).unwrap();
    assert_eq!(out.positions.len(), 0);
    assert_eq!(out.indices.len(), 0);
}

#[test]
fn max_points_caps_instances() {
    let tpl = triangle_template();
    let points = vec![point(0.0, 0.0, 0.0, 1, 1, 1); 5];
    let out = build_fused_mesh(&points, &tpl, true, false, true, true, Some(2)).unwrap();
    assert_eq!(out.positions.len(), 6);
    assert_eq!(out.indices.len(), 6);
}

#[test]
fn missing_requested_attribute_fails() {
    let mut tpl = triangle_template();
    tpl.uvs = None;
    let points = vec![point(0.0, 0.0, 0.0, 1, 1, 1)];
    let r = build_fused_mesh(&points, &tpl, true, false, true, true, None);
    assert_eq!(r.unwrap_err(), FusionError::MissingAttribute(MeshAttribute::Uv));
    let r2 = build_fused_mesh(&points, &tpl, true, true, false, true, None);
    assert_eq!(r2.unwrap_err(), FusionError::MissingAttribute(MeshAttribute::Tangent));
}

#[test]
fn length_mismatch_fails() {
    let tpl = triangle_template();
    let meshes = vec![tpl];
    let transforms: Vec<Translation> = vec![];
    let r = combine_meshes(&meshes, &transforms, false, false, false, false);
    assert_eq!(r.unwrap_err(), FusionError::LengthMismatch);
}

#[test]
fn combine_heterogeneous_meshes() {
    let tri = triangle_template();
    let quad = MeshBuffer {
        positions: vec![
            bits3(0.0, 0.0, 0.0),
            bits3(1.0, 0.0, 0.0),
            bits3(1.0, 1.0, 0.0),
            bits3(0.0, 1.0, 0.0),
        ],
        normals: None,
        tangents: None,
        uvs: None,
        colors: None,
        indices: vec![0, 1, 2, 0, 2, 3],
    };
    let meshes = vec![tri, quad];
    let transforms = vec![
        Translation { x: 0.0f32.to_bits(), y: 0.0f32.to_bits(), z: 0.0f32.to_bits() },
        Translation { x: 100.0f32.to_bits(), y: 0.0f32.to_bits(), z: 0.0f32.to_bits() },
    ];
    let out = combine_meshes(&meshes, &transforms, false, false, false, false).unwrap();
    assert_eq!(out.positions.len(), 7);
    assert_eq!(out.indices, vec![0, 1, 2, 3, 4, 5, 3, 5, 6]);
    assert_eq!(out.positions[4], bits3(1.0 + 100.0, 0.0, 0.0));
    assert!(out.normals.is_none());
    assert!(out.colors.is_none());
}
