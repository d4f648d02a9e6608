use kokoro_rs::voices::{StyleArray, StyleError, Voices, STYLE_DIM};

fn array(rows: usize, depth: usize, width: usize, start: u32) -> StyleArray<u32> {
    let len = (rows * depth * width) as u32;
    StyleArray { rows, depth, width, data: (start..start + len).collect() }
}

fn member(name: &str, array: StyleArray<u32>) -> (String, StyleArray<u32>) {
    (name.to_string(), array)
}

#[test]
fn voices_are_named_in_order() {
    let voices = Voices::from_members(vec![
        member("bm_george.npy", array(1, 1, STYLE_DIM, 0)),
        member("af_heart.npy", array(1, 1, STYLE_DIM, 0)),
        member("af", array(1, 1, STYLE_DIM, 0)),
        member("éa.npy", array(1, 1, STYLE_DIM, 0)),
        member("Zed.npy.npy", array(1, 1, STYLE_DIM, 0)),
    ])
    .unwrap();
    assert_eq!(voices.names(), ["Zed.npy", "af", "af_heart", "bm_george", "éa"]);
    assert!(voices.contains("af_heart"));
    assert!(!voices.contains("af_heart.npy"));
}

#[test]
fn a_pack_without_voices_is_refused() {
    assert!(Voices::<u32>::from_members(Vec::new()).is_none());
}

#[test]
fn of_two_voices_by_one_name_the_later_one_stands() {
    let voices = Voices::from_members(vec![
        member("v", array(1, 1, STYLE_DIM, 0)),
        member("w", array(1, 1, STYLE_DIM, 5)),
        member("v.npy", array(1, 1, STYLE_DIM, 7)),
    ])
    .unwrap();
    assert_eq!(voices.names(), ["v", "w"]);
    assert_eq!(voices.style("v", 0).unwrap()[0], 7);
    assert_eq!(voices.style("w", 0).unwrap()[0], 5);
}

#[test]
fn the_style_goes_by_token_count() {
    let voices = Voices::from_members(vec![
        member("deep.npy", array(3, 2, STYLE_DIM, 0)),
        member("thin.npy", array(3, 1, 10, 0)),
        member("none.npy", array(0, 1, STYLE_DIM, 0)),
    ])
    .unwrap();
    let row = |n: u32| (n * 512..n * 512 + 256).collect::<Vec<u32>>();
    assert_eq!(voices.style("deep", 0), Ok(row(0)));
    assert_eq!(voices.style("deep", 2), Ok(row(2)));
    // Clamped to the rows there are.
    assert_eq!(voices.style("deep", 500), Ok(row(2)));
    assert_eq!(voices.style("other", 0), Err(StyleError::UnknownVoice));
    assert_eq!(voices.style("thin", 0), Err(StyleError::Width(10)));
    assert!(!voices.is_usable("none"));
    assert!(voices.is_usable("deep"));
    assert!(voices.is_usable("other"));
    assert_eq!(StyleError::UnknownVoice.message("x"), "unknown voice x");
    assert_eq!(
        StyleError::Width(10).message("x"),
        "voice x has style width 10, expected 256"
    );
}
