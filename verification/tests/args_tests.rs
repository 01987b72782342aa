use raytracing::args::{parse, Error, FileFormat, Options, WhichScene};

fn options() -> Options {
    Options {
        threads: 4,
        width: 600,
        samples: 100,
        depth: 50,
        world_seed: 1,
        sample_seed: 2,
        output: None,
        scene: WhichScene::Weekend,
        verbose: false,
        format: None,
        bit_depth: 8,
    }
}

#[test]
fn scene_names() {
    assert_eq!(WhichScene::from_str("weekend").ok(), Some(WhichScene::Weekend));
    assert_eq!(WhichScene::from_str("gay").ok(), Some(WhichScene::Gay));
    assert_eq!(WhichScene::from_str("tuesday").ok(), Some(WhichScene::Tuesday));
    assert_eq!(WhichScene::from_str("perlin").ok(), Some(WhichScene::Perlin));
    assert_eq!(WhichScene::from_str("earth").ok(), Some(WhichScene::Earth));
    assert_eq!(WhichScene::from_str("cornell").ok(), Some(WhichScene::Cornell));
    assert_eq!(WhichScene::from_str("bisexual").ok(), Some(WhichScene::Bisexual));
    assert_eq!(WhichScene::from_str("week").ok(), Some(WhichScene::Week));
    assert_eq!(WhichScene::from_str("Week").err().map(|e| e.0), Some("scene"));
    assert_eq!(WhichScene::from_str("").err().map(|e| e.0), Some("scene"));
    assert_eq!(WhichScene::from_str("weekend ").err().map(|e| e.0), Some("scene"));
}

#[test]
fn format_names_and_extensions() {
    assert_eq!(FileFormat::from_str("png").ok(), Some(FileFormat::Png));
    assert_eq!(FileFormat::from_str("ppm").ok(), Some(FileFormat::Ppm));
    assert_eq!(FileFormat::from_str(".png").err().map(|e| e.0), Some("format"));
    assert_eq!(FileFormat::from_extension("out.png").ok(), Some(FileFormat::Png));
    assert_eq!(FileFormat::from_extension("out.ppm").ok(), Some(FileFormat::Ppm));
    assert_eq!(FileFormat::from_extension(".png").ok(), Some(FileFormat::Png));
    assert_eq!(FileFormat::from_extension("a.ppm.png").ok(), Some(FileFormat::Png));
    assert_eq!(FileFormat::from_extension("png").err().map(|e| e.0), Some("format"));
    assert_eq!(FileFormat::from_extension("out.PNG").err().map(|e| e.0), Some("format"));
    assert_eq!(FileFormat::from_extension("out.png ").err().map(|e| e.0), Some("format"));
    assert_eq!(FileFormat::from_extension("").err().map(|e| e.0), Some("format"));
}

#[test]
fn options_without_output_default_to_ppm() {
    let args = parse(options()).unwrap();
    assert_eq!(args.format, FileFormat::Ppm);
    assert_eq!(args.threads, 4);
    assert_eq!(args.width, 600);
    assert_eq!(args.samples, 100);
    assert_eq!(args.depth, 50);
    assert_eq!(args.world_seed, 1);
    assert_eq!(args.sample_seed, 2);
    assert_eq!(args.output, None);
    assert_eq!(args.scene, WhichScene::Weekend);
    assert!(!args.verbose);
    assert_eq!(args.bit_depth, 8);
}

#[test]
fn format_is_found_from_the_output_name() {
    let mut o = options();
    o.output = Some("image.png".to_string());
    o.bit_depth = 16;
    let args = parse(o).unwrap();
    assert_eq!(args.format, FileFormat::Png);
    assert_eq!(args.output.as_deref(), Some("image.png"));
    let mut o = options();
    o.output = Some("image.png".to_string());
    o.format = Some(FileFormat::Ppm);
    assert_eq!(parse(o).unwrap().format, FileFormat::Ppm);
}

#[test]
fn each_rule_is_reported() {
    let mut o = options();
    o.threads = 0;
    o.output = Some(String::new());
    assert_eq!(parse(o).err(), Some(Error::ZeroThreads));
    let mut o = options();
    o.output = Some(String::new());
    o.format = Some(FileFormat::Png);
    assert_eq!(parse(o).err(), Some(Error::EmptyOutput));
    let mut o = options();
    o.output = Some("image.jpg".to_string());
    o.bit_depth = 0;
    assert_eq!(parse(o).err(), Some(Error::UnknownExtension));
    let mut o = options();
    o.format = Some(FileFormat::Png);
    o.bit_depth = 17;
    assert_eq!(parse(o).err(), Some(Error::PngBitDepth));
    let mut o = options();
    o.format = Some(FileFormat::Png);
    o.bit_depth = 0;
    assert_eq!(parse(o).err(), Some(Error::PngBitDepth));
    let mut o = options();
    o.bit_depth = 9;
    assert_eq!(parse(o).err(), Some(Error::PpmBitDepth));
    let mut o = options();
    o.output = Some("x.ppm".to_string());
    o.bit_depth = 0;
    assert_eq!(parse(o).err(), Some(Error::PpmBitDepth));
}

#[test]
fn causes_are_worded() {
    assert_eq!(Error::ZeroThreads.cause(), "number of threads must be nonzero");
    assert_eq!(Error::EmptyOutput.cause(), "output filename must not be empty");
    assert_eq!(Error::UnknownExtension.cause(), "failed to determine format from extension");
    assert_eq!(Error::PngBitDepth.cause(), "PNG image bit depth must be between 1 and 16");
    assert_eq!(Error::PpmBitDepth.cause(), "PPM image bit depth must be between 1 and 8");
}
