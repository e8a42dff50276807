//! Tests of what is flashed.

use fuchsia::flash::{FlashManifest, FlashStep, OemFile, Partition, Product};

fn partition(name: &str, file: &str) -> Partition {
    Partition::new(name.to_string(), file.to_string(), None, None)
}

fn oem_file(command: &str, file: &str) -> OemFile {
    OemFile { command: command.to_string(), file: file.to_string() }
}

fn manifest() -> FlashManifest {
    FlashManifest(vec![
        Product {
            name: "zedboot".to_string(),
            bootloader_partitions: vec![partition("test1", "path1"), partition("test2", "path2")],
            partitions: vec![
                partition("test1", "path1"),
                partition("test2", "path2"),
                partition("test3", "path3"),
                partition("test4", "path4"),
                partition("test5", "path5"),
            ],
            oem_files: vec![oem_file("test1", "path1"), oem_file("test2", "path2")],
            requires_unlock: false,
        },
        Product {
            name: "fuchsia".to_string(),
            bootloader_partitions: vec![],
            partitions: vec![
                partition("test10", "path10"),
                partition("test20", "path20"),
                partition("test30", "path30"),
            ],
            oem_files: vec![],
            requires_unlock: false,
        },
    ])
}

fn locked_manifest() -> FlashManifest {
    FlashManifest(vec![Product {
        name: "zedboot".to_string(),
        bootloader_partitions: vec![Partition::new(
            "btest1".to_string(),
            "bpath1".to_string(),
            Some("var1".to_string()),
            Some("value1".to_string()),
        )],
        partitions: vec![],
        oem_files: vec![],
        requires_unlock: true,
    }])
}

#[test]
fn test_should_fail_if_product_missing() {
    let v = manifest();
    assert_eq!(v.flash(&"Unknown".to_string(), None), FlashStep::MissingProduct);
    assert_eq!(v.flash(&"".to_string(), Some(true)), FlashStep::MissingProduct);
    assert_eq!(FlashManifest(vec![]).find_product(&"fuchsia".to_string()), None);
}

#[test]
fn test_should_succeed_if_product_found() {
    let v = manifest();
    assert_eq!(v.flash(&"fuchsia".to_string(), None), FlashStep::Flash { product: 1 });
    assert_eq!(v.flash(&"zedboot".to_string(), Some(true)), FlashStep::Flash { product: 0 });
    assert_eq!(v.0[1].partitions[0].name(), "test10");
    assert_eq!(v.0[1].partitions[2].file(), "path30");
}

#[test]
fn test_should_not_flash_if_target_is_locked_and_product_requires_unlock() {
    let v = locked_manifest();
    let product = "zedboot".to_string();
    assert_eq!(v.flash(&product, None), FlashStep::AskLocked);
    assert_eq!(v.flash(&product, Some(true)), FlashStep::Refuse);
    assert_eq!(v.flash(&product, Some(false)), FlashStep::Flash { product: 0 });
}

#[test]
fn first_product_with_a_name_is_flashed() {
    let mut v = manifest();
    v.0.push(locked_manifest().0.remove(0));
    assert_eq!(v.find_product(&"zedboot".to_string()), Some(0));
    assert_eq!(v.flash(&"zedboot".to_string(), None), FlashStep::Flash { product: 0 });
}

#[test]
fn partitions_may_depend_on_a_variable() {
    let v = locked_manifest();
    let conditional = &v.0[0].bootloader_partitions[0];
    assert_eq!(conditional.variable(), Some("var1"));
    assert_eq!(conditional.variable_value(), Some("value1"));
    assert_eq!(partition("test1", "path1").variable(), None);
    assert_eq!(partition("test1", "path1").variable_value(), None);
}
