use ure::sys::gpu::render2d::{Draw2D, Fill, Geometry, Instance};

fn inst(x: f32, geometry: Geometry, fill: Fill, color: f64) -> Instance<[f32; 2], f64> {
    Instance([x, 0.0], geometry, fill, color)
}

#[test]
fn instance_diff_keeps_only_the_changed_parts() {
    let a = inst(1.0, Geometry::Quad, Fill::Blank, 0.5);
    let b = inst(2.0, Geometry::Quad, Fill::Texture(4), 0.5);
    let d = a.diff(&b);
    assert_eq!(d.0, Some([2.0, 0.0]));
    assert!(d.1.is_none());
    assert_eq!(d.2, Some(Fill::Texture(4)));
    assert!(d.3.is_none());
    let same = a.diff(&a);
    assert!(same.0.is_none() && same.1.is_none() && same.2.is_none() && same.3.is_none());
    let g = a.diff(&inst(1.0, Geometry::Mesh(9), Fill::Blank, 0.25));
    assert_eq!(g.1, Some(Geometry::Mesh(9)));
    assert_eq!(g.3, Some(0.25));
}

#[test]
fn draw_records_every_part_of_an_instance_not_seen_before() {
    let mut dr: Draw2D<[f32; 2], f64> = Draw2D::default();
    dr.draw(7, inst(1.0, Geometry::Quad, Fill::Blank, 0.5));
    dr.draw(8, inst(3.0, Geometry::Mesh(2), Fill::Texture(1), 1.0));
    let c = dr.finish();
    assert_eq!(c.len(), 2);
    assert_eq!(c[0].0, 7);
    assert_eq!(c[0].1 .0, Some([1.0, 0.0]));
    assert_eq!(c[0].1 .1, Some(Geometry::Quad));
    assert_eq!(c[0].1 .2, Some(Fill::Blank));
    assert_eq!(c[0].1 .3, Some(0.5));
    assert_eq!(c[1].0, 8);
    assert_eq!(c[1].1 .1, Some(Geometry::Mesh(2)));
    assert!(dr.finish().is_empty());
}
