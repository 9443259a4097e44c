use rust_rim::steam::json::Json;
use rust_rim::steam::workshop_api::{
    browse_data, browse_data_of, collection_children_of, file_details_of, has_next_page, workshop_items, DataError,
};

fn page(query_data: &str) -> String {
    let ctx = format!("{{\"queryData\":{}}}", serde_json::to_string(query_data).unwrap());
    format!("<script>window.SSR.renderContext=JSON.parse({});</script>", serde_json::to_string(&ctx).unwrap())
}

const LISTING: &str = r#"{"queries":[
    {"queryKey":["workshop_browse"],"state":{"data":5}},
    {"queryKey":["other"],"state":{"data":{"results":[]}}},
    {"queryKey":["workshop_browse","x"],"state":{"data":{
        "results":[{"publishedfileid":"42","title":"Mod","creator":"7","preview_url":"https://x/p.png"},{"title":5}],
        "creator_player_link_details":[{"public_data":{"steamid":"7","persona_name":"Ann"}},{"public_data":{"steamid":"8"}}],
        "current_page":1,"total_pages":3}}}]}"#;

#[test]
fn browse_data_is_read_from_the_page() {
    let d = browse_data_of(&page(LISTING)).unwrap();
    let rs = d.results.as_ref().unwrap();
    assert_eq!(rs.len(), 2);
    assert_eq!(rs[0].publishedfileid.as_deref(), Some("42"));
    assert_eq!(rs[0].creator.as_deref(), Some("7"));
    assert_eq!(rs[1].title, None);
    assert_eq!(d.authors, vec![("7".to_string(), "Ann".to_string())]);
    assert_eq!(d.current_page, Some(1));
    assert_eq!(d.total_pages, Some(3));
    let items = workshop_items(&d);
    assert_eq!(items.len(), 1);
    assert_eq!(items[0].id, 42);
    assert_eq!(items[0].author, "Ann");
    assert!(has_next_page(&d));
}

#[test]
fn each_way_a_page_can_fail_has_its_error() {
    assert_eq!(browse_data_of("<html></html>").unwrap_err(), DataError::NoRenderContext);
    assert_eq!(browse_data_of("window.SSR.renderContext=JSON.parse(x)").unwrap_err(), DataError::BadRenderContext);
    assert_eq!(browse_data_of("window.SSR.renderContext=JSON.parse(\"{nope\")").unwrap_err(), DataError::BadJson);
    assert_eq!(browse_data_of("window.SSR.renderContext=JSON.parse(\"{}\")").unwrap_err(), DataError::NoQueryData);
    assert_eq!(browse_data_of(&page("{]")).unwrap_err(), DataError::BadJson);
    assert_eq!(browse_data_of(&page("{}")).unwrap_err(), DataError::NoQueries);
    assert_eq!(
        browse_data_of(&page(r#"{"queries":[{"queryKey":["workshop_browse"],"state":{"data":[]}}]}"#)).unwrap_err(),
        DataError::NotFound
    );
}

#[test]
fn listing_fields_of_other_types_are_left_out() {
    let data = Json::Object(vec![
        ("current_page".to_string(), Json::Number(Some(2))),
        ("total_pages".to_string(), Json::Str("3".to_string())),
        ("results".to_string(), Json::Null),
    ]);
    let d = browse_data(&data);
    assert!(d.results.is_none());
    assert!(d.authors.is_empty());
    assert_eq!(d.current_page, Some(2));
    assert_eq!(d.total_pages, None);
}

#[test]
fn collection_children_are_read_from_the_answer() {
    let text = r#"{"response":{"collectiondetails":[{"children":[{"publishedfileid":"11"},{"publishedfileid":12}]}]}}"#;
    assert_eq!(collection_children_of(text).unwrap(), vec![Some("11".to_string()), None]);
    assert_eq!(collection_children_of(r#"{"response":{}}"#).unwrap_err(), DataError::NoChildren);
    assert_eq!(collection_children_of("not json").unwrap_err(), DataError::BadJson);
}

#[test]
fn file_details_are_read_from_the_answer() {
    let text = r#"{"response":{"publishedfiledetails":[{"publishedfileid":"5","title":"Pack","preview_url":"u"},{"title":"x"}]}}"#;
    let ds = file_details_of(text).unwrap();
    assert_eq!(ds.len(), 2);
    assert_eq!(ds[0].publishedfileid.as_deref(), Some("5"));
    assert_eq!(ds[0].title.as_deref(), Some("Pack"));
    assert_eq!(ds[1].publishedfileid, None);
    assert_eq!(file_details_of(r#"{"response":{"publishedfiledetails":{}}}"#).unwrap_err(), DataError::NoDetails);
}
