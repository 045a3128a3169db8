use d3rs::scales::Band;

fn bands<DT: Clone>(band: &Band<DT>) -> Vec<(DT, (usize, usize))> {
    let mut out = Vec::new();
    let mut iter = band.iter();
    while let Some((domain, span)) = iter.next() {
        out.push((domain.clone(), span));
    }
    out
}

#[test]
fn create_band() {
    let band = Band::new((1977..2018).collect(), 600).padding_inner(100);

    let mut iter = band.iter();
    while let Some((domain, (start, end))) = iter.next() {
        println!("domain: {} -> ({}, {})", domain, start, end)
    }

    let band = Band::new(vec!["Apples", "Pears", "Bananas"], 300);

    let mut iter = band.iter();
    while let Some((domain, (start, end))) = iter.next() {
        println!("domain: {} -> ({}, {})", domain, start, end)
    }
}

#[test]
fn three_categories_over_three_hundred() {
    let band = Band::new(vec!["Apples", "Pears", "Bananas"], 300);
    let got = bands(&band);
    assert_eq!(
        got,
        vec![
            ("Apples", (5, 94)),
            ("Pears", (105, 194)),
            ("Bananas", (205, 294))
        ]
    );
    for pair in got.windows(2) {
        assert!(pair[0].1 .1 < pair[1].1 .0);
    }
    assert!(got[2].1 .1 < 300);
}

#[test]
fn dimension_grows_to_fit_the_bands() {
    let band = Band::new((0..50).collect::<Vec<i32>>(), 100);
    let got = bands(&band);
    assert_eq!(got.len(), 50);
    assert_eq!(got[0], (0, (0, 8)));
    assert_eq!(got[49], (49, (480, 488)));
}

#[test]
fn padding_of_a_whole_falls_back() {
    let a = bands(&Band::new(vec![1, 2, 3], 300).padding_inner(1500));
    let b = bands(&Band::new(vec![1, 2, 3], 300));
    assert_eq!(a, b);
}

#[test]
fn wider_inner_padding_narrows_bands() {
    let got = bands(&Band::new(vec!['a', 'b'], 200).padding_inner(500));
    assert_eq!(got, vec![('a', (6, 68)), ('b', (131, 193))]);
}

#[test]
fn empty_band() {
    let band: Band<u8> = Band::new(Vec::new(), 10);
    assert!(bands(&band).is_empty());
}
