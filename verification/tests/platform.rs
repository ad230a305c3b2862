use x_notify_service::protocol::{
    command_of_other_program, desktop_entry, desktop_file_name, find_app_bundle,
    handler_of_other_program, open_command, scheme_mime, url_description, SCHEME,
};
use x_notify_service::server::cors_headers;
use x_notify_service::user_path::{le_units, units_to_le_bytes, updated_path, updated_path_value};
use x_notify_service::window_icon::{
    argb_pixels, client_ids, decode_rgba, icon_from_frame, icon_property, icon_property_bytes,
};

fn png_rgba(width: u32, height: u32, rgba: &[u8]) -> Vec<u8> {
    let mut out = Vec::new();
    {
        let mut enc = png::Encoder::new(&mut out, width, height);
        enc.set_color(png::ColorType::Rgba);
        enc.set_depth(png::BitDepth::Eight);
        let mut writer = enc.write_header().unwrap();
        writer.write_image_data(rgba).unwrap();
    }
    out
}

fn utf16le(s: &str) -> Vec<u8> {
    s.encode_utf16().flat_map(u16::to_le_bytes).collect()
}

#[test]
fn rgba_bytes_become_argb_pixels() {
    assert_eq!(argb_pixels(&[0x11, 0x22, 0x33, 0x44]), vec![0x4411_2233]);
    assert_eq!(argb_pixels(&[1, 2, 3, 4, 5, 6, 7, 8, 9]), vec![0x0401_0203, 0x0805_0607]);
    assert!(argb_pixels(&[1, 2, 3]).is_empty());
}

#[test]
fn icon_sides_are_clamped() {
    let (w, h, px) = icon_from_frame(1024, 16, &[0, 0, 0, 255]);
    assert_eq!((w, h), (512, 16));
    assert_eq!(px, vec![0xff00_0000]);
}

#[test]
fn png_icon_decodes_to_argb() {
    let file = png_rgba(2, 1, &[255, 0, 0, 255, 0, 0, 255, 128]);
    let (w, h, px) = decode_rgba(&file).unwrap();
    assert_eq!((w, h), (2, 1));
    assert_eq!(px, vec![0xffff_0000, 0x8000_00ff]);
    assert!(decode_rgba(b"not a png").is_none());
}

#[test]
fn icon_property_lists_each_decoded_size() {
    let big = png_rgba(2, 1, &[1, 2, 3, 4, 5, 6, 7, 8]);
    let small = png_rgba(1, 1, &[9, 10, 11, 12]);
    let data = icon_property(&vec![big, b"broken".to_vec(), small]);
    assert_eq!(data, vec![2, 1, 0x0401_0203, 0x0805_0607, 1, 1, 0x0c09_0a0b]);
    let bytes = icon_property_bytes(&[1, 0x0102_0304]);
    assert_eq!(bytes.len(), 8);
    assert_eq!(&bytes[0..4], &1u32.to_ne_bytes());
    assert_eq!(&bytes[4..8], &0x0102_0304u32.to_ne_bytes());
}

#[test]
fn client_list_is_read_little_endian() {
    assert_eq!(client_ids(&[1, 0, 0, 0, 0x78, 0x56, 0x34, 0x12, 9]), vec![1, 0x1234_5678]);
}

#[test]
fn user_path_adds_directory_once() {
    assert_eq!(updated_path("C:\\a;C:\\b", "C:\\bin", true).unwrap(), "C:\\a;C:\\b;C:\\bin\0");
    assert_eq!(updated_path("", "C:\\bin", true).unwrap(), "C:\\bin\0");
    // empty entries are dropped on the way
    assert_eq!(updated_path(";C:\\a;;", "C:\\bin", true).unwrap(), "C:\\a;C:\\bin\0");
    // already there, up to ASCII case
    assert!(updated_path("C:\\a;c:\\BIN", "C:\\bin", true).is_none());
}

#[test]
fn user_path_removes_every_match() {
    assert_eq!(
        updated_path("C:\\bin;C:\\a;c:\\BIN;C:\\b", "C:\\bin", false).unwrap(),
        "C:\\a;C:\\b\0"
    );
    assert_eq!(updated_path("C:\\bin", "C:\\bin", false).unwrap(), "\0");
    assert!(updated_path("C:\\a", "C:\\bin", false).is_none());
    // ASCII case only: other letters must match exactly
    assert!(updated_path("C:\\Ä", "C:\\ä", false).is_none());
}

#[test]
fn user_path_written_entries_read_back() {
    let added = updated_path("C:\\a;;C:\\b", "C:\\bin", true).unwrap();
    let text = added.trim_end_matches('\0');
    // the written entries split back into the same list
    assert!(updated_path(text, "c:\\BIN", true).is_none());
    assert_eq!(updated_path(text, "C:\\bin", false).unwrap(), "C:\\a;C:\\b\0");
    assert!(updated_path("C:\\a;C:\\b", "C:\\bin", false).is_none());
}

#[test]
fn user_path_value_round_trips_utf16le() {
    assert_eq!(le_units(&[0x41, 0x00, 0x2c, 0x4e, 0x01]), vec![0x0041, 0x4e2c]);
    assert_eq!(units_to_le_bytes(&[0x0041, 0x4e2c]), vec![0x41, 0x00, 0x2c, 0x4e]);
    let raw = utf16le("C:\\工具;D:\\x");
    let new = updated_path_value(&raw, "E:\\程序", true).unwrap();
    assert_eq!(new, utf16le("C:\\工具;D:\\x;E:\\程序\0"));
    assert!(updated_path_value(&raw, "d:\\X", true).is_none());
    // a value read back with its NUL keeps the NUL in its last entry
    let stored = utf16le("C:\\bin\0");
    assert_eq!(updated_path_value(&stored, "C:\\bin", true).unwrap(), utf16le("C:\\bin\0;C:\\bin\0"));
    // unpaired surrogates are read as U+FFFD
    let mut odd = utf16le("A;");
    odd.extend_from_slice(&[0x00, 0xd8]);
    assert_eq!(updated_path_value(&odd, "B", true).unwrap(), utf16le("A;\u{FFFD};B\0"));
}

#[test]
fn desktop_entry_registers_scheme_handler() {
    assert_eq!(SCHEME, "x-notify");
    assert_eq!(desktop_file_name(), "x-notify-service.desktop");
    assert_eq!(scheme_mime(), "x-scheme-handler/x-notify");
    assert_eq!(
        desktop_entry("/opt/x/x-notify-service"),
        "[Desktop Entry]\nType=Application\nName=x-notify-service\nExec=/opt/x/x-notify-service %u\n\
         Icon=x-notify-service\nNoDisplay=true\nTerminal=false\nMimeType=x-scheme-handler/x-notify;\n"
    );
}

#[test]
fn windows_scheme_registration_values() {
    assert_eq!(open_command("C:\\x\\svc.exe"), "\"C:\\x\\svc.exe\" \"%1\"");
    assert_eq!(url_description(), "URL:x-notify 协议");
    assert!(!command_of_other_program("\"C:\\x\\svc.exe\" \"%1\"", "C:\\x\\svc.exe"));
    assert!(command_of_other_program("\"C:\\other.exe\" \"%1\"", "C:\\x\\svc.exe"));
}

#[test]
fn other_scheme_handler_is_detected() {
    assert!(!handler_of_other_program(""));
    assert!(!handler_of_other_program("  \n"));
    assert!(!handler_of_other_program("x-notify-service.desktop\n"));
    assert!(handler_of_other_program("firefox.desktop\n"));
}

#[test]
fn app_bundle_is_the_deepest_app_directory() {
    assert_eq!(
        find_app_bundle("/Applications/X.app/Contents/MacOS/x-notify-service").unwrap(),
        "/Applications/X.app"
    );
    assert_eq!(find_app_bundle("/a/Outer.app/b/Inner.app/Contents/MacOS/x").unwrap(), "/a/Outer.app/b/Inner.app");
    assert!(find_app_bundle("/usr/local/bin/x-notify-service").is_none());
    // the executable itself is not a bundle, nor is a bare ".app"
    assert!(find_app_bundle("/tmp/x.app").is_none());
    assert!(find_app_bundle("/tmp/.app/x").is_none());
}

#[test]
fn cors_headers_allow_local_pages() {
    let h = cors_headers();
    assert_eq!(h.len(), 5);
    assert_eq!(h[0], ("Access-Control-Allow-Origin", "*"));
    assert_eq!(h[1], ("Access-Control-Allow-Methods", "GET, POST, OPTIONS"));
    assert_eq!(h[2], ("Access-Control-Allow-Headers", "Content-Type"));
    assert_eq!(h[3], ("Access-Control-Allow-Private-Network", "true"));
    assert_eq!(h[4], ("Access-Control-Max-Age", "86400"));
}

#[test]
fn user_path_keeps_supplementary_characters() {
    let raw = utf16le("C:\\😀");
    assert_eq!(updated_path_value(&raw, "D:\\𝄞", true).unwrap(), utf16le("C:\\😀;D:\\𝄞\0"));
    // a lone low surrogate reads as U+FFFD
    let mut odd = utf16le("A");
    odd.extend_from_slice(&[0x00, 0xdc]);
    assert_eq!(updated_path_value(&odd, "B", true).unwrap(), utf16le("A\u{FFFD};B\0"));
}
