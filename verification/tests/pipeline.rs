use raytrace::color::{format_color, to_color, to_color_bytes};
use raytrace::hittable::HitRecord;
use raytrace::ray::Ray;
use raytrace::material::EmptyMaterial;
use raytrace::render::assemble;
use raytrace::texture::ImageTexture;
use raytrace::utils::{format_duration_hhmmss, random_i32_with_range, PixelInfo};
use raytrace::vec3::Vec3;
use raytrace::SCALE;

const S: i64 = SCALE;

fn px(u: usize, v: usize, c: i64) -> PixelInfo {
    PixelInfo { u, v, color: Vec3 { x: c, y: c, z: c } }
}

#[test]
fn assemble_emits_rows_top_to_bottom() {
    // 2 x 2 image: row v = 1 is the top row and must come out first.
    let msgs = vec![px(0, 0, 10), px(1, 0, 11), px(0, 1, 20), px(1, 1, 21)];
    let out = assemble(2, 2, &msgs).expect("complete image");
    let greys: Vec<i64> = out.iter().map(|c| c.x).collect();
    assert_eq!(greys, vec![20, 21, 10, 11]);
}

#[test]
fn assemble_is_order_independent() {
    let a = vec![px(0, 0, 1), px(1, 0, 2), px(0, 1, 3), px(1, 1, 4)];
    let b = vec![px(1, 1, 4), px(0, 0, 1), px(0, 1, 3), px(1, 0, 2)];
    assert_eq!(assemble(2, 2, &a), assemble(2, 2, &b));
}

#[test]
fn assemble_reports_missing_pixels() {
    let msgs = vec![px(0, 0, 1), px(1, 0, 2), px(0, 1, 3)];
    assert!(assemble(2, 2, &msgs).is_none());
}

#[test]
fn gamma_and_quantization_rule() {
    // One sample: a full channel stays full, a half channel maps to
    // sqrt(0.5) and quantizes to 181.
    let c = to_color(Vec3 { x: S, y: 0, z: S / 2 }, 1);
    assert_eq!(c.x, S);
    assert_eq!(c.y, 0);
    assert_eq!(c.z, 46340);
    let (r, g, b) = to_color_bytes(&c);
    assert_eq!((r, g, b), (255, 0, 181));
    assert_eq!(format_color(&c), "255 0 181");
}

#[test]
fn averaging_divides_by_sample_count() {
    let c = to_color(Vec3 { x: 4 * S, y: 0, z: 0 }, 4);
    assert_eq!(c.x, S);
}

#[test]
fn duration_formatting_pads_fields() {
    assert_eq!(format_duration_hhmmss(0), "00:00:00");
    assert_eq!(format_duration_hhmmss(3723), "01:02:03");
    assert_eq!(format_duration_hhmmss(86399), "23:59:59");
    assert_eq!(format_duration_hhmmss(360000 + 754), "100:12:34");
}

#[test]
fn random_axis_pick_stays_in_bounds() {
    for _ in 0..1000 {
        let a = random_i32_with_range(0, 2);
        assert!((0..=2).contains(&a));
    }
}

#[test]
fn image_texture_looks_up_exact_texels() {
    // A 1 x 2 image: top texel red, bottom texel green.
    let data = vec![255, 0, 0, 0, 255, 0];
    let t = ImageTexture::with_data(1, 2, data).expect("consistent data");
    let p = Vec3 { x: 0, y: 0, z: 0 };
    let top = t.value(0, S, &p);
    assert_eq!((top.x, top.y, top.z), (S, 0, 0));
    let bottom = t.value(0, 0, &p);
    assert_eq!((bottom.x, bottom.y, bottom.z), (0, S, 0));
}

#[test]
fn image_texture_rejects_mismatched_data() {
    assert!(ImageTexture::with_data(2, 2, vec![0, 0, 0]).is_none());
    let empty = ImageTexture::default();
    let c = empty.value(0, 0, &Vec3 { x: 0, y: 0, z: 0 });
    assert_eq!((c.x, c.y, c.z), (0, S, S));
}

#[test]
fn set_face_normal_orients_against_the_ray() {
    let mut rec = HitRecord::new();
    let r = Ray { orig: Vec3 { x: 0, y: 0, z: 0 }, dir: Vec3 { x: 0, y: 0, z: -S }, tm: 0 };
    // Outward normal along +z faces the incoming ray: kept, front face.
    rec.set_face_normal(&r, &Vec3 { x: 0, y: 0, z: S });
    assert!(rec.front_face);
    assert_eq!(rec.normal, Vec3 { x: 0, y: 0, z: S });
    // Outward normal along -z points away: flipped, back face.
    rec.set_face_normal(&r, &Vec3 { x: 0, y: 0, z: -S });
    assert!(!rec.front_face);
    assert_eq!(rec.normal, Vec3 { x: 0, y: 0, z: S });
}

#[test]
fn empty_material_answers_reserved_handle() {
    let m = EmptyMaterial {};
    assert_eq!(m.handle(), 0);
}
