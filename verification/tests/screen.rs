use x_notify_service::popup::get_or_try_init;
use x_notify_service::screen::parse_workarea;

fn parse_workarea_f64(bytes: &[u8]) -> Option<(f64, f64, f64, f64)> {
    parse_workarea(bytes).map(|(x, y, w, h)| (f64::from(x), f64::from(y), f64::from(w), f64::from(h)))
}

/// 取第一个桌面的工作区(偏移 0/4/8/12 的 x/y/w/h)
#[test]
fn first_desktop_work_area() {
    let mut bytes = vec![0u8; 16];
    bytes[8..12].copy_from_slice(&1512u32.to_ne_bytes());
    bytes[12..16].copy_from_slice(&907u32.to_ne_bytes());
    assert_eq!(
        parse_workarea_f64(&bytes),
        Some((0.0, 0.0, 1512.0, 907.0)),
        "应取出第 3/4 字段 w/h"
    );
}

/// 非零原点:四个字段均按 4 字节步进解析
#[test]
fn nonzero_origin_four_byte_stride() {
    let mut bytes = vec![0u8; 16];
    bytes[0..4].copy_from_slice(&10u32.to_ne_bytes());
    bytes[4..8].copy_from_slice(&20u32.to_ne_bytes());
    bytes[8..12].copy_from_slice(&1000u32.to_ne_bytes());
    bytes[12..16].copy_from_slice(&600u32.to_ne_bytes());
    assert_eq!(
        parse_workarea_f64(&bytes),
        Some((10.0, 20.0, 1000.0, 600.0)),
        "四字段按偏移依次解出"
    );
}

/// 全零宽高或字节长度不足均视为无效
#[test]
fn all_zero_or_short_input_is_invalid() {
    assert_eq!(parse_workarea_f64(&[0u8; 16]), None, "全零宽高无效");
    assert_eq!(parse_workarea_f64(&[0u8; 8]), None, "长度不足无效");
}

#[test]
fn get_or_try_init_reuses_existing_value() {
    let mut slot = None;
    let mut creates = 0;

    let (_, first_created) = get_or_try_init(&mut slot, || {
        creates += 1;
        Ok::<_, ()>("window")
    })
    .unwrap();
    let (value, second_created) = get_or_try_init(&mut slot, || {
        creates += 1;
        Ok::<_, ()>("replacement")
    })
    .unwrap();

    assert!(first_created);
    assert!(!second_created);
    assert_eq!(creates, 1);
    assert_eq!(*value, "window");
}

#[test]
fn get_or_try_init_leaves_slot_empty_on_error() {
    let mut slot: Option<u32> = None;
    assert_eq!(get_or_try_init(&mut slot, || Err::<u32, &str>("no display")).err(), Some("no display"));
    assert_eq!(slot, None);
}
