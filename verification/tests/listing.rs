use soft_unet::listing::{is_annotation_file, names_in_order, select_annotation_files};

fn names(list: &[&str]) -> Vec<Vec<u8>> {
    list.iter().map(|s| s.as_bytes().to_vec()).collect()
}

#[test]
fn json_extension_follows_path_extension() {
    for name in ["a.json", "b.c.json", "x..json", ".hidden.json", "json.json", "a.JSON", "a.json.bak", ".json", "json", "a.jso", "a.jsonx", "", "..", "a."] {
        let expected = std::path::Path::new(name).extension().map(|e| e == "json").unwrap_or(false);
        assert_eq!(is_annotation_file(&name.as_bytes().to_vec()), expected, "{}", name);
    }
}

#[test]
fn byte_order_matches_path_order() {
    let pairs = [("a", "b"), ("a", "ab"), ("ab", "a"), ("", "a"), ("a", ""), ("B", "a"), ("same", "same")];
    for (a, b) in pairs {
        let expected = std::path::PathBuf::from(format!("dir/{}", a)) <= std::path::PathBuf::from(format!("dir/{}", b));
        assert_eq!(names_in_order(&a.as_bytes().to_vec(), &b.as_bytes().to_vec()), expected, "{} {}", a, b);
    }
}

#[test]
fn annotation_files_are_selected_and_sorted() {
    let selected = select_annotation_files(names(&["z.json", "img.png", "IMG_2.json", "a.json", ".json", "IMG_10.json", "notes.txt"]));
    assert_eq!(selected, names(&["IMG_10.json", "IMG_2.json", "a.json", "z.json"]));
    let mut expected: Vec<std::path::PathBuf> = ["z.json", "IMG_2.json", "a.json", "IMG_10.json"]
        .iter()
        .map(|n| std::path::Path::new("dir").join(n))
        .collect();
    expected.sort();
    let got: Vec<std::path::PathBuf> = selected
        .iter()
        .map(|n| std::path::Path::new("dir").join(String::from_utf8(n.clone()).unwrap()))
        .collect();
    assert_eq!(got, expected);
    assert!(select_annotation_files(Vec::new()).is_empty());
}
