use teenygrad::dtype::{
    bfloat16, boolean, dtype_less, float16, float32, float64, from_code, int32, int8, is_float,
    is_int, is_unsigned, promote, uint8, DTypeError, DTypeKind, MAX_CODE,
};

#[test]
fn from_code_finds_every_registered_code() {
    for code in 0..=MAX_CODE {
        let d = from_code(code).unwrap();
        let again = from_code(code).unwrap();
        assert_eq!(d.name, again.name);
        assert_eq!(d.priority, again.priority);
        if code < 12 {
            assert_eq!(d.np, Some(code));
        } else {
            assert_eq!(d.np, None);
        }
    }
}

#[test]
fn from_code_names() {
    assert_eq!(from_code(2).unwrap().name, "float");
    assert_eq!(from_code(4).unwrap().name, "char");
    assert_eq!(from_code(8).unwrap().name, "unsigned char");
    assert_eq!(from_code(12).unwrap().name, "__bf16");
    assert_eq!(from_code(0).unwrap().itemsize, 1);
    assert_eq!(from_code(3).unwrap().itemsize, 8);
}

#[test]
fn from_code_unknown() {
    assert_eq!(from_code(13).unwrap_err(), DTypeError::UnknownDType);
    assert_eq!(from_code(-1).unwrap_err(), DTypeError::UnknownDType);
}

#[test]
fn classes_are_consistent() {
    for code in 0..=MAX_CODE {
        let d = from_code(code).unwrap();
        assert!(!(is_int(&d) && is_float(&d)));
        if is_unsigned(&d) {
            assert!(is_int(&d));
        }
    }
    assert!(is_int(&int8()));
    assert!(is_unsigned(&uint8()));
    assert!(!is_unsigned(&int32()));
    assert!(is_float(&bfloat16()));
    assert!(!is_int(&boolean()) && !is_float(&boolean()));
    assert_eq!(boolean().kind, DTypeKind::Bool);
}

#[test]
fn promotion_order() {
    assert!(dtype_less(&int32(), &float32()));
    assert!(!dtype_less(&float32(), &int32()));
    assert!(dtype_less(&float32(), &float64()));
    // Same priority and width: the name decides.
    assert!(dtype_less(&bfloat16(), &float16()));
    assert!(!dtype_less(&float16(), &float16()));
    assert_eq!(promote(&int8(), &float16()).name, "half");
    assert_eq!(promote(&float16(), &bfloat16()).name, "half");
    assert_eq!(promote(&uint8(), &int8()).name, "unsigned char");
}
