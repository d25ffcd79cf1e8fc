use atrofac::{convert_to_curve, FanCurveDevice, FanCurveTable, FanCurveTableBuilder, TableEntry, TableIndex};

const CPU_MINIMUM: &str = "39c:0%,49c:0%,59c:0%,69c:0%,79c:31%,89c:49%,99c:56%,109c:56%";
const GPU_MINIMUM: &str = "39c:0%,49c:0%,59c:0%,69c:0%,79c:34%,89c:51%,99c:61%,109c:61%";

fn entries(table: &FanCurveTable) -> Vec<(u8, u8)> {
    TableIndex::iterator()
        .into_iter()
        .map(|index| {
            let entry = table.entry(index);
            (entry.degrees(), entry.fan_percent())
        })
        .collect()
}

#[test]
pub fn minimum_cpu_table_temp_given() {
    let minimum_table_string = "39c:0%,49c:0%,59c:0%,69c:0%,79c:31%,89c:49%,99c:56%,109c:56%";
    let table =
        FanCurveTableBuilder::from_string(FanCurveDevice::Cpu, minimum_table_string).unwrap();
    assert_eq!(true, table.is_valid());
    let table = table.auto_fix_build();
    assert_eq!(table.to_string(), minimum_table_string);
}

#[test]
pub fn minimum_gpu_table_temp_given() {
    let minimum_table_string = "39c:0%,49c:0%,59c:0%,69c:0%,79c:34%,89c:51%,99c:61%,109c:61%";
    let table =
        FanCurveTableBuilder::from_string(FanCurveDevice::Gpu, minimum_table_string).unwrap();
    assert_eq!(true, table.is_valid());
    let table = table.auto_fix_build();
    assert_eq!(table.to_string(), minimum_table_string);
}

#[test]
pub fn minimum_cpu_table() {
    let table_string = "150c:0%,150c:0%,150c:0%,150c:0%,150c:0%,150c:0%,150c:0%,150c:0%";
    let minimum_allowed = "39c:0%,49c:0%,59c:0%,69c:0%,79c:31%,89c:49%,99c:56%,109c:56%";
    let table = FanCurveTableBuilder::from_string(FanCurveDevice::Cpu, table_string).unwrap();
    assert_eq!(false, table.is_valid());
    let table = table.auto_fix_build();
    assert_eq!(table.to_string(), minimum_allowed);
}

#[test]
pub fn minimum_gpu_table() {
    let table_string = "150c:0%,150c:0%,150c:0%,150c:0%,150c:0%,150c:0%,150c:0%,150c:0%";
    let minimum_allowed = "39c:0%,49c:0%,59c:0%,69c:0%,79c:34%,89c:51%,99c:61%,109c:61%";
    let table = FanCurveTableBuilder::from_string(FanCurveDevice::Gpu, table_string).unwrap();
    assert_eq!(false, table.is_valid());
    let table = table.auto_fix_build();
    assert_eq!(table.to_string(), minimum_allowed);
}

#[test]
fn round_trip_of_a_repaired_table() {
    let input = "10c:90%,45c:20%,200c:5%,66c:70%,75c:10%,85c:100%,95c:0%,255c:255%";
    let table = FanCurveTableBuilder::from_string(FanCurveDevice::Gpu, input)
        .unwrap()
        .auto_fix_build();
    let text = table.to_string();
    assert_eq!(text, "30c:90%,45c:90%,59c:90%,66c:90%,75c:90%,85c:100%,95c:100%,109c:255%");
    let again = FanCurveTableBuilder::from_string(table.device(), &text).unwrap();
    assert!(again.is_valid());
    let again = again.auto_fix_build();
    assert_eq!(again.to_string(), text);
    assert_eq!(again.raw_bytes(), table.raw_bytes());
}

#[test]
fn repaired_table_rises_stays_in_buckets_and_above_floors() {
    let input = "0c:50%,0c:0%,0c:40%,0c:0%,0c:0%,0c:55%,0c:0%,0c:0%";
    for device in [FanCurveDevice::Cpu, FanCurveDevice::Gpu] {
        let table = FanCurveTableBuilder::from_string(device, input).unwrap().auto_fix_build();
        assert!(table.is_valid());
        let points = entries(&table);
        for (i, index) in TableIndex::iterator().into_iter().enumerate() {
            let (degrees, percent) = points[i];
            assert!(degrees >= index.min_degrees_inclusive());
            assert!(degrees <= index.max_degrees_inclusive());
            assert_eq!(index.min_degrees_inclusive() as usize, i * 10 + 30);
            assert_eq!(index.max_degrees_inclusive() as usize, i * 10 + 39);
            assert!(percent >= index.min_percentage_inclusive(device));
            if i > 0 {
                assert!(points[i - 1].1 <= percent);
            }
        }
    }
    let cpu = FanCurveTableBuilder::from_string(FanCurveDevice::Cpu, input).unwrap().auto_fix_build();
    assert_eq!(cpu.to_string(), "30c:50%,40c:50%,50c:50%,60c:50%,70c:50%,80c:55%,90c:56%,100c:56%");
}

#[test]
fn auto_fix_keeps_a_valid_table() {
    let input = "30c:0%,45c:10%,50c:20%,65c:30%,70c:40%,88c:60%,90c:70%,105c:100%";
    let mut builder = FanCurveTableBuilder::from_string(FanCurveDevice::Gpu, input).unwrap();
    assert!(builder.is_valid());
    builder.auto_fix();
    assert!(builder.is_valid());
    let table = builder.auto_fix_build();
    assert_eq!(table.to_string(), input);
    assert_eq!(
        table.raw_bytes(),
        [30, 45, 50, 65, 70, 88, 90, 105, 0, 10, 20, 30, 40, 60, 70, 100]
    );
}

#[test]
fn blank_text_gives_the_minimum_table() {
    let cpu_zero_fixed = "30c:0%,40c:0%,50c:0%,60c:0%,70c:31%,80c:49%,90c:56%,100c:56%";
    let gpu_zero_fixed = "30c:0%,40c:0%,50c:0%,60c:0%,70c:34%,80c:51%,90c:61%,100c:61%";
    let zero = "0c:0%,0c:0%,0c:0%,0c:0%,0c:0%,0c:0%,0c:0%,0c:0%";
    for blank in ["", "   ", "\t \n"] {
        let (cpu, adjusted) = convert_to_curve(FanCurveDevice::Cpu, blank).unwrap();
        assert!(!adjusted);
        assert_eq!(cpu.to_string(), cpu_zero_fixed);
        let parsed = FanCurveTableBuilder::from_string(FanCurveDevice::Cpu, zero).unwrap();
        assert_eq!(parsed.auto_fix_build().to_string(), cpu.to_string());
        let (gpu, adjusted) = convert_to_curve(FanCurveDevice::Gpu, blank).unwrap();
        assert!(!adjusted);
        assert_eq!(gpu.to_string(), gpu_zero_fixed);
        let parsed = FanCurveTableBuilder::from_string(FanCurveDevice::Gpu, zero).unwrap();
        assert_eq!(parsed.auto_fix_build().to_string(), gpu.to_string());
    }
    // The fan speeds are those of the minimum table; the temperatures are
    // the lowest of each bucket, since zero is raised to the bucket's start.
    let cpu = convert_to_curve(FanCurveDevice::Cpu, "").unwrap().0;
    let minimum = FanCurveTableBuilder::from_string(FanCurveDevice::Cpu, CPU_MINIMUM)
        .unwrap()
        .auto_fix_build();
    assert_eq!(cpu.raw_bytes()[8..], minimum.raw_bytes()[8..]);
    let gpu = convert_to_curve(FanCurveDevice::Gpu, " ").unwrap().0;
    let minimum = FanCurveTableBuilder::from_string(FanCurveDevice::Gpu, GPU_MINIMUM)
        .unwrap()
        .auto_fix_build();
    assert_eq!(gpu.raw_bytes()[8..], minimum.raw_bytes()[8..]);
    assert!(!FanCurveTableBuilder::from_string(FanCurveDevice::Cpu, zero).unwrap().is_valid());
}

#[test]
fn conversion_reports_repairs() {
    let (table, adjusted) = convert_to_curve(FanCurveDevice::Cpu, CPU_MINIMUM).unwrap();
    assert!(!adjusted);
    assert_eq!(table.to_string(), CPU_MINIMUM);
    let (table, adjusted) = convert_to_curve(FanCurveDevice::Gpu, CPU_MINIMUM).unwrap();
    assert!(adjusted);
    assert_eq!(table.to_string(), GPU_MINIMUM);
    let err = convert_to_curve(FanCurveDevice::Gpu, "12c").err().unwrap();
    assert!(err.message().contains("'12c'"));
}

#[test]
fn nine_tokens_are_too_many() {
    let text = "39c:0%,49c:0%,59c:0%,69c:0%,79c:31%,89c:49%,99c:56%,109c:56%,109c:56%";
    let err = FanCurveTableBuilder::from_string(FanCurveDevice::Cpu, text).err().unwrap();
    assert_eq!(
        err.message(),
        "Too many entries for fan curve table, cannot have more than 8 entries."
    );
    let err = FanCurveTableBuilder::from_string(FanCurveDevice::Cpu, "1c:1%,,,,,,,,").err().unwrap();
    assert!(err.message().starts_with("Unable to parse ''"));
}

#[test]
fn unparsable_token_is_named() {
    let err = FanCurveTableBuilder::from_string(FanCurveDevice::Cpu, "abc").err().unwrap();
    assert_eq!(
        err.message(),
        "Unable to parse 'abc': It must look like this: <DEGREES>c:<PERCENT>%, examples: 35c:45% or 55c:75% (while degrees must be <=255 and percent within 0-100)."
    );
    let err = FanCurveTableBuilder::from_string(FanCurveDevice::Cpu, "39c:0%, 4x9c:0%,abc").err().unwrap();
    assert!(err.message().starts_with("Unable to parse ' 4x9c:0%'"));
}

#[test]
fn token_grammar() {
    let ok = |text: &str| FanCurveTableBuilder::from_string(FanCurveDevice::Cpu, text).is_ok();
    assert!(ok(" \t39c:5% "));
    assert!(ok("007c:010%"));
    assert!(ok("255c:255%"));
    assert!(!ok("256c:0%"));
    assert!(!ok("0c:256%"));
    assert!(!ok("1234c:0%"));
    assert!(!ok("c:0%"));
    assert!(!ok("1c:%"));
    assert!(!ok("1c0%"));
    assert!(!ok("1c:0"));
    assert!(!ok("1 c:0%"));
    assert!(!ok("x1c:0%"));
    assert!(!ok("1c:0%x"));
    assert!(!ok(""));
    assert!(!ok("1c:0%,"));
}

#[test]
fn fewer_tokens_leave_zeros() {
    let builder = FanCurveTableBuilder::from_string(FanCurveDevice::Cpu, " 42c:7% , 5c:100%").unwrap();
    let table = FanCurveTableBuilder::from_string(FanCurveDevice::Cpu, "42c:7%,5c:100%").unwrap();
    assert!(!builder.is_valid());
    let fixed = builder.auto_fix_build();
    assert_eq!(fixed.to_string(), "39c:7%,40c:100%,50c:100%,60c:100%,70c:100%,80c:100%,90c:100%,100c:100%");
    assert_eq!(
        table.auto_fix_build().raw_bytes(),
        [39, 40, 50, 60, 70, 80, 90, 100, 7, 100, 100, 100, 100, 100, 100, 100]
    );
}

#[test]
fn builder_set_and_text() {
    let mut builder = FanCurveTableBuilder::new(FanCurveDevice::Gpu);
    builder.set(TableIndex::from_ordinal(0).unwrap(), TableEntry::new(7, 255));
    builder.set(TableIndex::from_ordinal(7).unwrap(), TableEntry::new(100, 42));
    let table = builder.auto_fix_build();
    assert_eq!(table.to_string(), "30c:255%,40c:255%,50c:255%,60c:255%,70c:255%,80c:255%,90c:255%,100c:255%");
    let entry = table.entry(TableIndex::from_ordinal(7).unwrap());
    assert_eq!((entry.degrees(), entry.fan_percent()), (100, 255));
    assert_eq!(table.device(), FanCurveDevice::Gpu);
}

#[test]
fn table_index_bounds_and_floors() {
    assert_eq!(TableIndex::max_ordinal(), 7);
    assert!(TableIndex::from_ordinal(8).is_none());
    assert_eq!(TableIndex::from_ordinal(3).unwrap().ordinal(), 3);
    let ordinals: Vec<u8> = TableIndex::iterator().iter().map(|i| i.ordinal()).collect();
    assert_eq!(ordinals, vec![0, 1, 2, 3, 4, 5, 6, 7]);
    let cpu: Vec<u8> = TableIndex::iterator()
        .iter()
        .map(|i| i.min_percentage_inclusive(FanCurveDevice::Cpu))
        .collect();
    let gpu: Vec<u8> = TableIndex::iterator()
        .iter()
        .map(|i| i.min_percentage_inclusive(FanCurveDevice::Gpu))
        .collect();
    assert_eq!(cpu, vec![0, 0, 0, 0, 31, 49, 56, 56]);
    assert_eq!(gpu, vec![0, 0, 0, 0, 34, 51, 61, 61]);
    let index = TableIndex::from_ordinal(7).unwrap();
    assert_eq!((index.min_degrees_inclusive(), index.max_degrees_inclusive()), (100, 109));
}
