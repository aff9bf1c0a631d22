use customer_segmentation::record::{parse_date, Customer, Date, DataError, SCALE};

fn base_customer() -> Customer {
    Customer {
        id: 7,
        income: Some(50000 * SCALE),
        year_birth: 1990,
        education: "Graduation".to_string(),
        marital_status: "Single".to_string(),
        mntwines: 100 * SCALE,
        mntfruits: 50 * SCALE,
        mntmeatproducts: 80 * SCALE,
        mntfishproducts: 40 * SCALE,
        mntsweetproducts: 30 * SCALE,
        mntgoldprods: 20 * SCALE,
        recency: 10 * SCALE,
        dt_customer: Date { year: 2020, month: 1, day: 1 },
        num_web_purchases: 5,
        num_catalog_purchases: 3,
        num_store_purchases: 2,
        kidhome: 1,
        teenhome: 2,
        acceptedcmp1: 0,
        acceptedcmp2: 1,
        acceptedcmp3: 0,
        acceptedcmp4: 0,
        acceptedcmp5: 0,
        response: 0,
    }
}

#[test]
fn education_score_mapping_is_exact() {
    let mut c = base_customer();
    c.education = "PhD".to_string();
    assert_eq!(c.education_score(), 3 * SCALE);
    c.education = "Master".to_string();
    assert_eq!(c.education_score(), 2 * SCALE);
    c.education = "Graduation".to_string();
    assert_eq!(c.education_score(), 1 * SCALE);
    c.education = "Basic".to_string();
    assert_eq!(c.education_score(), 0);
    c.education = "phd".to_string();
    assert_eq!(c.education_score(), 0);
}

#[test]
fn marital_score_mapping_is_exact() {
    let mut c = base_customer();
    c.marital_status = "Married".to_string();
    assert_eq!(c.marital_score(), 1000);
    c.marital_status = "Together".to_string();
    assert_eq!(c.marital_score(), 800);
    c.marital_status = "Single".to_string();
    assert_eq!(c.marital_score(), 500);
    c.marital_status = "Absurd".to_string();
    assert_eq!(c.marital_score(), 0);
}

#[test]
fn campaign_priority_first_flag_wins() {
    let mut c = base_customer();
    c.acceptedcmp1 = 1;
    c.acceptedcmp2 = 0;
    c.acceptedcmp5 = 1;
    // priority order: a record accepting campaigns one and five is coded
    // like one accepting campaign one alone
    assert_eq!(c.campaign_code(), 1 * SCALE);
}

#[test]
fn campaign_code_all_positions() {
    let mut c = base_customer();
    c.acceptedcmp1 = 0;
    c.acceptedcmp2 = 0;
    assert_eq!(c.campaign_code(), 0);
    c.response = 1;
    assert_eq!(c.campaign_code(), 6 * SCALE);
    c.acceptedcmp5 = 1;
    assert_eq!(c.campaign_code(), 5 * SCALE);
    c.acceptedcmp4 = 1;
    assert_eq!(c.campaign_code(), 4 * SCALE);
    c.acceptedcmp3 = 1;
    assert_eq!(c.campaign_code(), 3 * SCALE);
    c.acceptedcmp2 = 1;
    assert_eq!(c.campaign_code(), 2 * SCALE);
}

#[test]
fn feature_vector_has_nine_entries() {
    let c = base_customer();
    assert_eq!(c.feature_vector().len(), 9);
    let mut no_income = base_customer();
    no_income.income = None;
    assert_eq!(no_income.feature_vector().len(), 9);
}

#[test]
fn feature_vector_exact_values() {
    let c = base_customer();
    let fv = c.feature_vector();
    assert_eq!(fv[0], 50000 * SCALE); // income
    assert_eq!(fv[1], 1 * SCALE); // Graduation
    assert_eq!(fv[2], 500); // Single
    assert_eq!(fv[3], 10 * SCALE); // recency
    // 2020-01-01 to 2025-04-01 is 1917 days; ten purchases over that span
    assert_eq!(fv[4], 10 * SCALE / 1917); // frequency
    assert_eq!(fv[5], 320 * SCALE); // total spend
    assert_eq!(fv[6], 3 * SCALE); // children
    assert_eq!(fv[7], 2 * SCALE); // second campaign flag set
    assert_eq!(fv[8], 35 * SCALE); // age in 2025
}

#[test]
fn absent_income_becomes_zero() {
    let mut c = base_customer();
    c.income = None;
    assert_eq!(c.feature_vector()[0], 0);
}

#[test]
fn total_spent_sums_all_six_categories() {
    let c = base_customer();
    assert_eq!(c.total_spent(), 320 * SCALE);
}

#[test]
fn parse_date_accepts_padded_and_unpadded() {
    assert_eq!(parse_date("04-09-2012"), Ok(Date { year: 2012, month: 9, day: 4 }));
    assert_eq!(parse_date("7-4-2021"), Ok(Date { year: 2021, month: 4, day: 7 }));
    assert_eq!(parse_date("31-12-0001"), Ok(Date { year: 1, month: 12, day: 31 }));
    assert_eq!(parse_date("29-02-2020"), Ok(Date { year: 2020, month: 2, day: 29 }));
}

#[test]
fn parse_date_rejects_malformed_text() {
    assert_eq!(parse_date(""), Err(DataError::MalformedDate));
    assert_eq!(parse_date("2012-09-04"), Err(DataError::MalformedDate));
    assert_eq!(parse_date("04/09/2012"), Err(DataError::MalformedDate));
    assert_eq!(parse_date("04-09-12"), Err(DataError::MalformedDate));
    assert_eq!(parse_date("april 9 2012"), Err(DataError::MalformedDate));
    assert_eq!(parse_date("0x-09-2012"), Err(DataError::MalformedDate));
}

#[test]
fn parse_date_rejects_impossible_dates() {
    assert_eq!(parse_date("31-02-2020"), Err(DataError::MalformedDate));
    assert_eq!(parse_date("29-02-2021"), Err(DataError::MalformedDate));
    assert_eq!(parse_date("00-01-2020"), Err(DataError::MalformedDate));
    assert_eq!(parse_date("01-13-2020"), Err(DataError::MalformedDate));
    assert_eq!(parse_date("32-01-2020"), Err(DataError::MalformedDate));
}

#[test]
fn well_formedness_check_matches_bounds() {
    let c = base_customer();
    assert!(c.is_well_formed());
    let mut late_birth = base_customer();
    late_birth.year_birth = 2026;
    assert!(!late_birth.is_well_formed());
    let mut bad_date = base_customer();
    bad_date.dt_customer = Date { year: 2020, month: 2, day: 30 };
    assert!(!bad_date.is_well_formed());
}
