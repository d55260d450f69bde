use ray_tracer_challenge::wavefront::{FaceTriangle, NumberTriple, ObjGroup, WavefrontObj};

fn value(s: &str) -> f64 {
    s.parse::<f64>().unwrap()
}

fn point(t: &NumberTriple) -> (f64, f64, f64) {
    (value(&t.x), value(&t.y), value(&t.z))
}

fn flat(a: usize, b: usize, c: usize) -> FaceTriangle {
    FaceTriangle { vertices: (a, b, c), normals: None }
}

#[test]
fn ignoring_unrecognized_lines() {
    let gibberish = "There was a young lady named Bright
who traveled much faster than light.
She set out one day
in a relative way,
and came back the previous night.";

    let parsed = WavefrontObj::parse(gibberish);

    assert_eq!(parsed.ignored(), 5);
}

#[test]
fn vertex_records() {
    let data = "
v -1 1 0
v -1.0000 0.5000 0.0000
v 1 0 0
v 1 1 0
";

    let parsed = WavefrontObj::parse(data);

    assert_eq!(point(&parsed.vertices()[0]), (-1.0, 1.0, 0.0));
    assert_eq!(point(&parsed.vertices()[1]), (-1.0, 0.5, 0.0));
    assert_eq!(point(&parsed.vertices()[2]), (1.0, 0.0, 0.0));
    assert_eq!(point(&parsed.vertices()[3]), (1.0, 1.0, 0.0));
    assert_eq!(parsed.vertices()[1].x, "-1.0000");
}

#[test]
fn parsing_triangle_faces() {
    let data = "
v -1 1 0
v -1 0 0
v 1 0 0
v 1 1 0

f 1 2 3
f 1 3 4
";

    let parsed = WavefrontObj::parse(data);

    let g = parsed.group(&ObjGroup::Default).unwrap();
    assert_eq!(g[0], flat(0, 1, 2));
    assert_eq!(g[1], flat(0, 2, 3));
}

#[test]
fn triangulating_polygons() {
    let data = "
v -1 1 0
v -1 0 0
v 1 0 0
v 1 1 0
v 0 2 0

f 1 2 3 4 5
";

    let parsed = WavefrontObj::parse(data);

    let g = parsed.group(&ObjGroup::Default).unwrap();
    assert_eq!(g.len(), 3);
    assert_eq!(g[0], flat(0, 1, 2));
    assert_eq!(g[1], flat(0, 2, 3));
    assert_eq!(g[2], flat(0, 3, 4));
}

#[test]
fn triangles_in_groups() {
    let data = "
v -1 1 0
v -1 0 0
v 1 0 0
v 1 1 0

g FirstGroup
f 1 2 3
g SecondGroup
f 1 3 4
";

    let parsed = WavefrontObj::parse(data);

    let g1 = parsed.group(&ObjGroup::Named(String::from("FirstGroup"))).unwrap();
    let g2 = parsed.group(&ObjGroup::Named(String::from("SecondGroup"))).unwrap();
    assert_eq!(g1[0], flat(0, 1, 2));
    assert_eq!(g2[0], flat(0, 2, 3));
    assert!(parsed.group(&ObjGroup::Default).unwrap().is_empty());
}

#[test]
fn vertex_normal_records() {
    let data = "
vn 0 0 1
vn 0.707 0 -0.707
vn 1 2 3
";

    let parsed = WavefrontObj::parse(data);

    let normals: Vec<_> = parsed.normals().iter().map(point).collect();
    assert_eq!(normals, [(0.0, 0.0, 1.0), (0.707, 0.0, -0.707), (1.0, 2.0, 3.0)]);
}

#[test]
fn faces_with_normals() {
    let data = "
v 0 1 0
v -1 0 0
v 1 0 0

vn -1 0 0
vn 1 0 0
vn 0 1 0

f 1//3 2//1 3//2
f 1/0/3 2/102/1 3/14/2
";

    let parsed = WavefrontObj::parse(data);

    let g = parsed.group(&ObjGroup::Default).unwrap();
    let t1 = &g[0];
    let t2 = &g[1];

    assert_eq!(*t1, FaceTriangle { vertices: (0, 1, 2), normals: Some((2, 0, 1)) });
    assert_eq!(point(&parsed.vertices()[t1.vertices.0]), (0.0, 1.0, 0.0));
    assert_eq!(point(&parsed.normals()[t1.normals.unwrap().0]), (0.0, 1.0, 0.0));
    assert_eq!(t1, t2);
}

#[test]
fn converting_parsed_obj_file_to_group() {
    let data = "
v -1 1 0
v -1 0 0
v 1 0 0
v 1 1 0

g FirstGroup
f 1 2 3
g SecondGroup
f 1 3 4
";

    let parsed = WavefrontObj::parse(data);
    let triangles = parsed.into_triangles();
    assert_eq!(triangles, vec![flat(0, 1, 2), flat(0, 2, 3)]);
}

#[test]
fn faces_referring_to_missing_vertices_are_refused() {
    assert!(WavefrontObj::try_parse("v 1 2 3\nf 1 2 3\n").is_none());
    assert!(WavefrontObj::try_parse("v 1 2 3\nv 1 2 3\nv 1 2 3\nf 0 1 2\n").is_none());
    assert!(WavefrontObj::try_parse("v 1 2 3\nv 1 2 3\nv 1 2 3\nf 1//2 2//2 3//2\n").is_none());
    assert!(WavefrontObj::try_parse("f 1 2 3\nv 1 2 3\nv 1 2 3\nv 1 2 3\n").is_none());
    assert!(WavefrontObj::try_parse("v 1 2 3\nv 1 2 3\nv 1 2 3\nf 1 2 3\n").is_some());
}

#[test]
fn malformed_records_are_ignored() {
    let data = "v 1e3 -2.5E-1 .5\nv +inf NaN 5.\nv 1 2\nv 1 2 3 4\nv 1 x 3\nvn 1 2\nf 1 2\nf 1/2/3/4 1 1\nf a b c\ng\nv\tx\n\n";
    let parsed = WavefrontObj::parse(data);
    assert_eq!(parsed.ignored(), 10);
    assert_eq!(parsed.vertices().len(), 2);
    assert_eq!(point(&parsed.vertices()[0]), (1000.0, -0.25, 0.5));
    assert!(value(&parsed.vertices()[1].y).is_nan());
}

#[test]
fn regrouping_a_name_replaces_its_triangles() {
    let data = "v 0 0 0\nv 1 0 0\nv 0 1 0\ng A\nf 1 2 3\ng B\nf 3 2 1\ng A\n";
    let parsed = WavefrontObj::parse(data);
    assert_eq!(parsed.groups().len(), 3);
    assert!(parsed.group(&ObjGroup::Named(String::from("A"))).unwrap().is_empty());
    assert_eq!(parsed.group(&ObjGroup::Named(String::from("B"))).unwrap()[0], flat(2, 1, 0));
}

#[test]
fn windows_line_endings_and_padding() {
    let data = "v 1 2 3\r\nv 4 5 6\r\nv 7 8 9\r\ng   Padded Name  \r\nf  1   2 3\r\n";
    let parsed = WavefrontObj::parse(data);
    assert_eq!(parsed.vertices().len(), 3);
    assert_eq!(parsed.vertices()[2].z, "9");
    assert_eq!(parsed.group(&ObjGroup::Named(String::from("Padded Name"))).unwrap()[0], flat(0, 1, 2));
    assert_eq!(parsed.ignored(), 0);
}

#[test]
fn indices_with_plus_signs_are_read() {
    let data = "v 1 2 3\nv 1 2 3\nv 1 2 3\nf +1 +2 +3\n";
    let parsed = WavefrontObj::parse(data);
    assert_eq!(parsed.group(&ObjGroup::Default).unwrap()[0], flat(0, 1, 2));
}
